//! The settings that every operation of one command runs with, and the
//! resolution of an overlay's target directory under them.
use vstd::prelude::*;
use crate::overlay::{Overlay, Repository};
use crate::paths::{expand_target, expand_target_spec};
use std::collections::BTreeMap;
use tera::{to_value, Value};

verus! {

/// The settings of one command: its flags, the directory that `~` stands
/// for, the registry, and the overlay being applied.
#[derive(Clone, Debug)]
pub struct Context {
    /// Report what would be done, and change nothing.
    pub dry_run: bool,
    pub debug: bool,
    pub verbose: bool,
    /// Replace a link to another source without asking.
    pub force: bool,
    /// The directory that a target of `~` stands for.
    pub root: String,
    pub repository: Repository,
    pub overlay: Option<Overlay>,
}

/// Text with no opening brace: no template tag can start in it.
pub open spec fn plain_text(t: Seq<char>) -> bool {
    !t.contains('{')
}

/// Relies on tera's `Context::insert` and `Tera::one_off` (no escaping),
/// rendering `template` with the flags, `root`, `repository.root` and the
/// overlay's name, root and uses as variables. A template can read the environment, so of the result only
/// this is stated: a template without `{` opens no tag, and its text is
/// written out as it is.
#[verifier::external_body]
fn render_template(template: &str, ctx: &Context, o: &Overlay) -> (r: Option<String>)
    ensures
        plain_text(template@) ==> r is Some && r->Some_0@ == template@,
{
    let mut vars = tera::Context::new();
    vars.insert("dry_run", &ctx.dry_run);
    vars.insert("debug", &ctx.debug);
    vars.insert("verbose", &ctx.verbose);
    vars.insert("force", &ctx.force);
    vars.insert("root", &ctx.root);
    vars.insert("repository", &BTreeMap::from([("root", &ctx.repository.root)]));
    let fields = [("name", to_value(&o.name)), ("root", to_value(&o.root)), ("uses", to_value(&o.uses))];
    let overlay: BTreeMap<&str, Value> = fields.into_iter().map(|(k, v)| (k, v.unwrap_or_default())).collect();
    vars.insert("overlay", &overlay);
    tera::Tera::one_off(template, &vars, false).ok()
}

/// Why a target could not be resolved.
#[derive(Clone, Copy, Debug, PartialEq, Eq, Structural)]
pub enum TargetError {
    /// The target template does not render.
    Template,
}

impl Context {
    pub fn new(
        dry_run: bool,
        debug: bool,
        verbose: bool,
        force: bool,
        root: String,
        repository: Repository,
        overlay: Option<Overlay>,
    ) -> (r: Context)
        ensures
            r.dry_run == dry_run && r.debug == debug && r.verbose == verbose && r.force == force,
            r.root == root,
            r.repository == repository,
            r.overlay == overlay,
    {
        Context { dry_run, debug, verbose, force, root, repository, overlay }
    }

    /// The same settings, for applying `overlay`.
    pub fn with_overlay(&self, overlay: Overlay) -> (r: Context)
        ensures
            r.dry_run == self.dry_run && r.debug == self.debug && r.verbose == self.verbose && r.force
                == self.force,
            r.root@ == self.root@,
            r.repository.root@ == self.repository.root@,
            r.overlay == Some(overlay),
    {
        Context {
            dry_run: self.dry_run,
            debug: self.debug,
            verbose: self.verbose,
            force: self.force,
            root: self.root.clone(),
            repository: Repository::new(self.repository.root.clone()),
            overlay: Some(overlay),
        }
    }
}

impl Overlay {
    /// The directory that the overlay is applied to: its target rendered as
    /// a template, then `~` expanded to `ctx.root` (see `expand_target`).
    pub fn resolve_target(&self, ctx: &Context) -> (r: Result<String, TargetError>)
        ensures
            r matches Ok(p) ==> exists|t: Seq<char>| p@ == expand_target_spec(t, ctx.root@),
            plain_text(self.target@) ==> (r matches Ok(p) && p@ == expand_target_spec(self.target@, ctx.root@)),
    {
        match render_template(self.target.as_str(), ctx, self) {
            Some(t) => Ok(expand_target(t.as_str(), ctx.root.as_str())),
            None => Err(TargetError::Template),
        }
    }
}

} // verus!
