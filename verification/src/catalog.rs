//! The templates of a repository.
//!
//! A repository's directory is read once into a list of its entries; the
//! functions here say which of them are templates.

use vstd::prelude::*;
use vstd::string::*;
use crate::context::text_of;
use crate::error::CoreError;
use crate::resolver::{join, path_in, ResolvedRepository};
use crate::text::texts_of;

verus! {

/// One entry of a repository's directory, as it was found on disk:
/// its name, whether it is a directory, whether that directory holds at
/// least one file, and the summary that its metadata give, if any.
pub struct Candidate {
    pub name: String,
    pub is_directory: bool,
    pub has_file: bool,
    pub summary: Option<String>,
}

/// A template of a repository.
pub struct TemplateDescriptor {
    pub name: String,
    pub root_path: String,
    pub metadata: Option<String>,
}

/// Whether a name is that of a hidden entry: it begins with a dot.
pub open spec fn is_hidden(name: Seq<char>) -> bool {
    name.len() > 0 && name[0] == '.'
}

/// Whether an entry is a template: a directory that is not hidden and
/// holds at least one file.
pub open spec fn qualifies(candidate: Candidate) -> bool {
    candidate.is_directory && candidate.has_file && !is_hidden(candidate.name@)
}

/// The names of the templates among `entries`, in order.
pub open spec fn templates_in(entries: Seq<Candidate>) -> Seq<Seq<char>>
    decreases entries.len(),
{
    if entries.len() == 0 {
        Seq::empty()
    } else if qualifies(entries.last()) {
        templates_in(entries.drop_last()).push(entries.last().name@)
    } else {
        templates_in(entries.drop_last())
    }
}

/// The first template named `name` among `entries`.
pub open spec fn template_named(entries: Seq<Candidate>, name: Seq<char>) -> Option<Candidate>
    decreases entries.len(),
{
    if entries.len() == 0 {
        None
    } else if qualifies(entries[0]) && entries[0].name@ == name {
        Some(entries[0])
    } else {
        template_named(entries.skip(1), name)
    }
}

/// Whether `template` describes the template named `name` among the
/// entries of the repository directory `local_path`: it has the name, its
/// root is the entry of that name in the directory, and its metadata are the
/// summary of the first template of that name.
pub open spec fn describes(
    template: TemplateDescriptor,
    local_path: Seq<char>,
    entries: Seq<Candidate>,
    name: Seq<char>,
) -> bool {
    &&& template.name@ == name
    &&& template.root_path@ == path_in(local_path, name)
    &&& text_of(template.metadata) == text_of(template_named(entries, name)->0.summary)
}

/// A template of a name is found exactly where the name is among the
/// names of the templates.
pub proof fn lemma_named_iff_listed(entries: Seq<Candidate>, name: Seq<char>)
    ensures
        template_named(entries, name) is Some <==> templates_in(entries).contains(name),
        template_named(entries, name) matches Some(found) ==> qualifies(found) && found.name@
            == name && entries.contains(found),
    decreases entries.len(),
{
    if entries.len() > 0 {
        let listed = templates_in(entries);
        let front = entries.drop_last();
        let last = entries.last();
        lemma_named_iff_listed(front, name);
        lemma_named_iff_listed(entries.skip(1), name);
        lemma_named_front(entries, name);
        if template_named(front, name) is Some {
            let k = choose|k: int|
                0 <= k < templates_in(front).len() && templates_in(front)[k] == name;
            assert(listed[k] == name);
        } else if qualifies(last) && last.name@ == name {
            assert(listed[listed.len() - 1] == name);
        } else if listed.contains(name) {
            let k = choose|k: int| 0 <= k < listed.len() && listed[k] == name;
            if qualifies(last) {
                assert(k < listed.len() - 1);
            }
            assert(templates_in(front)[k] == name);
        }
        if template_named(entries, name) is Some {
            let found = template_named(entries, name)->0;
            if !(qualifies(entries[0]) && entries[0].name@ == name) {
                let tail = entries.skip(1);
                let k = choose|k: int| 0 <= k < tail.len() && tail[k] == found;
                assert(entries[k + 1] == found);
            } else {
                assert(entries[0] == found);
            }
        }
    }
}

/// What the search finds among all entries, given what it finds among all
/// but the last.
proof fn lemma_named_front(entries: Seq<Candidate>, name: Seq<char>)
    requires
        entries.len() > 0,
    ensures
        template_named(entries, name) == (if template_named(entries.drop_last(), name) is Some {
            template_named(entries.drop_last(), name)
        } else if qualifies(entries.last()) && entries.last().name@ == name {
            Some(entries.last())
        } else {
            None
        }),
    decreases entries.len(),
{
    let front = entries.drop_last();
    if entries.len() == 1 {
        assert(template_named(entries.skip(1), name) is None);
        assert(template_named(front, name) is None);
    } else {
        assert(front[0] == entries[0]);
        if !(qualifies(entries[0]) && entries[0].name@ == name) {
            assert(entries.skip(1).drop_last() =~= front.skip(1));
            lemma_named_front(entries.skip(1), name);
        }
    }
}

/// Whether an entry is a template.
pub fn is_template(candidate: &Candidate) -> (r: bool)
    ensures
        r == qualifies(*candidate),
{
    if !candidate.is_directory || !candidate.has_file {
        return false;
    }
    if candidate.name.as_str().is_empty() {
        return true;
    }
    candidate.name.as_str().get_char(0) != '.'
}

/// The names of the templates among the entries of a repository's
/// directory, in the order of the entries. The list is empty where the
/// repository has no template.
pub fn list_templates(entries: &Vec<Candidate>) -> (names: Vec<String>)
    ensures
        texts_of(names@) == templates_in(entries@),
{
    let mut names: Vec<String> = Vec::new();
    let mut i: usize = 0;
    assert(texts_of(names@) =~= templates_in(entries@.take(0)));
    while i < entries.len()
        invariant
            i <= entries.len(),
            texts_of(names@) == templates_in(entries@.take(i as int)),
        decreases entries.len() - i,
    {
        let ghost before = names@;
        assert(entries@.take(i + 1).drop_last() == entries@.take(i as int));
        if is_template(&entries[i]) {
            let name = entries[i].name.clone();
            names.push(name);
            assert(texts_of(names@) =~= texts_of(before).push(name@));
        }
        i += 1;
    }
    assert(entries@.take(entries.len() as int) == entries@);
    names
}

/// The template named `name` of the repository `repository`, whose
/// directory holds `entries`. The name has to match exactly. Fails with
/// `TemplateNotFound` where no template has that name.
pub fn get_template(repository: &ResolvedRepository, entries: &Vec<Candidate>, name: &str) -> (r:
    Result<TemplateDescriptor, CoreError>)
    ensures
        r is Ok <==> templates_in(entries@).contains(name@),
        r matches Ok(template) ==> describes(template, repository.local_path@, entries@, name@),
        r matches Err(e) ==> e == CoreError::TemplateNotFound,
{
    let wanted = String::from_str(name);
    let mut i: usize = 0;
    assert(entries@.skip(0) == entries@);
    while i < entries.len()
        invariant
            i <= entries.len(),
            wanted@ == name@,
            template_named(entries@, name@) == template_named(entries@.skip(i as int), name@),
        decreases entries.len() - i,
    {
        assert(entries@.skip(i as int).skip(1) == entries@.skip(i + 1));
        if is_template(&entries[i]) && entries[i].name == wanted {
            proof {
                lemma_named_iff_listed(entries@, name@);
            }
            let metadata = match &entries[i].summary {
                Some(summary) => Some(summary.clone()),
                None => None,
            };
            return Ok(
                TemplateDescriptor {
                    name: wanted,
                    root_path: join(repository.local_path.as_str(), name),
                    metadata,
                },
            );
        }
        i += 1;
    }
    proof {
        lemma_named_iff_listed(entries@, name@);
    }
    Err(CoreError::TemplateNotFound)
}

} // verus!
