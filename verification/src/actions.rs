//! The operations that a front end calls.

use vstd::prelude::*;
use vstd::string::*;
use crate::catalog::{describes, get_template, list_templates, templates_in, Candidate, TemplateDescriptor};
use crate::context::{build, lemma_same_bindings, Context, Identity};
use crate::engine::{copy, halt, outcome, plan, tree_after, written, WorkspaceTarget};
use crate::error::CoreError;
use crate::resolver::ResolvedRepository;
use crate::text::texts_of;
use crate::tree::{views_of, Entry, FileTree};

verus! {

/// What a workspace is to be made of: its name, the template, the
/// directory to make it in, the repository that was asked for, and whether
/// files that are already there are overwritten.
pub struct InitOpts {
    pub name: String,
    pub template: String,
    pub directory: String,
    pub repository: Option<String>,
    pub replace: bool,
}

/// The names of the templates of a repository whose directory holds
/// `entries`. Fails with `NoTemplates` where there is none.
pub fn list(entries: &Vec<Candidate>) -> (r: Result<Vec<String>, CoreError>)
    ensures
        r is Ok <==> templates_in(entries@).len() > 0,
        r matches Ok(names) ==> texts_of(names@) == templates_in(entries@),
        r matches Err(e) ==> e == CoreError::NoTemplates,
{
    let names = list_templates(entries);
    assert(texts_of(names@).len() == names@.len());
    if names.len() == 0 {
        Err(CoreError::NoTemplates)
    } else {
        Ok(names)
    }
}

/// The template named `name` of the repository `repository`, whose
/// directory holds `entries`. Fails with `NoTemplates` where the repository
/// has no template at all, and with `TemplateNotFound` where it has some
/// but none of that name.
pub fn view(repository: &ResolvedRepository, entries: &Vec<Candidate>, name: &str) -> (r: Result<
    TemplateDescriptor,
    CoreError,
>)
    ensures
        r is Ok <==> templates_in(entries@).contains(name@),
        r matches Ok(template) ==> describes(template, repository.local_path@, entries@, name@),
        r matches Err(e) ==> e == (if templates_in(entries@).len() == 0 {
            CoreError::NoTemplates
        } else {
            CoreError::TemplateNotFound
        }),
{
    match list(entries) {
        Err(e) => Err(e),
        Ok(_) => get_template(repository, entries, name),
    }
}

/// The context that `init` renders with: the fields from the options and
/// the identity, and `values` for every other key.
pub open spec fn context_of(opts: InitOpts, values: Vec<(String, String)>, identity: Identity) -> Context {
    Context {
        name: opts.name,
        repository: opts.repository,
        username: identity.username,
        email: identity.email,
        values,
    }
}

/// The workspace that `init` copies into.
pub open spec fn target_of(opts: InitOpts) -> WorkspaceTarget {
    WorkspaceTarget { directory: opts.directory, name: opts.name, replace: opts.replace }
}

/// Makes the workspace that `opts` asks for in `tree`.
///
/// `repository` is the resolved repository and `entries` what its
/// directory holds; `files` are the entries of the template `opts.template`
/// as they were read from the template's root. `values` and `identity` go
/// into the context together with the name and the repository of `opts`.
///
/// Fails as `view` does where the repository has no template of that
/// name, and leaves the tree alone. Otherwise it copies as `copy` does.
pub fn init(
    opts: &InitOpts,
    repository: &ResolvedRepository,
    entries: &Vec<Candidate>,
    values: &Vec<(String, String)>,
    identity: Identity,
    files: &Vec<Entry>,
    tree: &mut FileTree,
) -> (r: Result<(), CoreError>)
    requires
        opts.name@.len() > 0,
    ensures
        !templates_in(entries@).contains(opts.template@) ==> *final(tree) == *old(tree) && r == Err::<
            (),
            CoreError,
        >(
            if templates_in(entries@).len() == 0 {
                CoreError::NoTemplates
            } else {
                CoreError::TemplateNotFound
            },
        ),
        templates_in(entries@).contains(opts.template@) ==> ({
            let bindings = context_of(*opts, *values, identity).bindings();
            let steps = plan(bindings, target_of(*opts).root(), views_of(files@));
            let done = halt(old(tree)@, steps, opts.replace);
            &&& r == outcome(done, steps.len() as int)
            &&& final(tree)@ == tree_after(old(tree)@, steps, opts.replace, done)
            &&& final(tree).history() == old(tree).history() + written(
                old(tree)@,
                steps,
                opts.replace,
                done,
            )
        }),
{
    match view(repository, entries, opts.template.as_str()) {
        Err(e) => {
            return Err(e);
        },
        Ok(_) => {},
    }
    let repository_name = match &opts.repository {
        Some(name) => Some(name.clone()),
        None => None,
    };
    let context = build(opts.name.clone(), repository_name, values, identity);
    proof {
        lemma_same_bindings(context, context_of(*opts, *values, identity));
    }
    let target = WorkspaceTarget {
        directory: opts.directory.clone(),
        name: opts.name.clone(),
        replace: opts.replace,
    };
    copy(files, &target, &context, tree)
}

} // verus!
