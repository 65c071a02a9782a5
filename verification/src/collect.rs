//! The collector: turns a traversal listing into the ordered flat list of
//! files to process, each paired with the flattened name it will carry in
//! the output folder or archive.

use vstd::prelude::*;

use crate::filter::Entry;
use crate::filter::EntryModel;
use crate::filter::FileFilter;
use crate::text::ext_of;
use crate::text::in_list_ci;
use crate::text::joined;
use crate::text::join_components;

verus! {

/// A file selected for output: its root-relative path, and the flat name
/// made by joining the path components with the configured delimiter.
pub struct CollectedEntry {
    pub components: Vec<String>,
    pub flat_name: String,
}

/// The mathematical shape of a collected entry.
pub struct CollectedModel {
    pub components: Seq<Seq<char>>,
    pub flat_name: Seq<char>,
}

impl View for CollectedEntry {
    type V = CollectedModel;

    open spec fn view(&self) -> CollectedModel {
        CollectedModel { components: self.components.deep_view(), flat_name: self.flat_name@ }
    }
}

impl DeepView for CollectedEntry {
    type V = CollectedModel;

    open spec fn deep_view(&self) -> CollectedModel {
        self.view()
    }
}

/// The deep view of a sequence of values, element by element.
pub open spec fn deep_of<T: DeepView>(s: Seq<T>) -> Seq<T::V> {
    Seq::new(s.len(), |i: int| s[i].deep_view())
}

/// Whether `path` lies at or under `prefix`, component by component.
pub open spec fn starts_with_components(path: Seq<Seq<char>>, prefix: Seq<Seq<char>>) -> bool {
    prefix.len() <= path.len() && path.subrange(0, prefix.len() as int) == prefix
}

/// Compares the leading components of `path` against `prefix`.
pub fn path_starts_with(path: &Vec<String>, prefix: &Vec<String>) -> (r: bool)
    ensures
        r == starts_with_components(path.deep_view(), prefix.deep_view()),
{
    let ghost pm = path.deep_view();
    let ghost qm = prefix.deep_view();
    if prefix.len() > path.len() {
        return false;
    }
    let mut i: usize = 0;
    while i < prefix.len()
        invariant
            0 <= i <= prefix.len() <= path.len(),
            pm == path.deep_view(),
            qm == prefix.deep_view(),
            pm.len() == path.len(),
            qm.len() == prefix.len(),
            forall|k: int| 0 <= k < i ==> pm[k] == qm[k],
        decreases prefix.len() - i,
    {
        assert(pm[i as int] == path@[i as int]@);
        assert(qm[i as int] == prefix@[i as int]@);
        if !(path[i] == prefix[i]) {
            proof {
                assert(pm.subrange(0, qm.len() as int)[i as int] == pm[i as int]);
            }
            return false;
        }
        i = i + 1;
    }
    proof {
        assert(pm.subrange(0, qm.len() as int) =~= qm);
    }
    true
}

/// Whether the walker keeps this entry: a file, not under the output
/// subfolder, and eligible by the classifier.
pub open spec fn collects(e: EntryModel, f: FileFilter, out: Seq<Seq<char>>) -> bool {
    &&& !e.is_dir
    &&& !starts_with_components(e.components, out)
    &&& f.spec_file_passes(e.components)
}

/// The flat list that collecting `entries` produces, in traversal order.
pub open spec fn spec_collect(
    entries: Seq<EntryModel>,
    f: FileFilter,
    out: Seq<Seq<char>>,
    delim: Seq<char>,
) -> Seq<CollectedModel>
    decreases entries.len(),
{
    if entries.len() == 0 {
        Seq::empty()
    } else {
        let rest = spec_collect(entries.drop_last(), f, out, delim);
        let e = entries.last();
        if collects(e, f, out) {
            rest.push(CollectedModel { components: e.components, flat_name: joined(e.components, delim) })
        } else {
            rest
        }
    }
}

/// The flat name of a file: its root-relative path components joined by the
/// configured delimiter.
pub fn generate_new_filename(components: &Vec<String>, delimiter: &str) -> (r: String)
    ensures
        r@ == joined(components.deep_view(), delimiter@),
{
    join_components(components, delimiter)
}

/// Copies a list of names.
fn clone_names(names: &Vec<String>) -> (r: Vec<String>)
    ensures
        r.deep_view() == names.deep_view(),
{
    let ghost model = names.deep_view();
    let mut r: Vec<String> = Vec::new();
    let mut i: usize = 0;
    while i < names.len()
        invariant
            0 <= i <= names.len(),
            model == names.deep_view(),
            model.len() == names.len(),
            r@.len() == i,
            forall|k: int| 0 <= k < i ==> r@[k]@ == model[k],
        decreases names.len() - i,
    {
        assert(model[i as int] == names@[i as int]@);
        r.push(names[i].clone());
        i = i + 1;
    }
    proof {
        assert forall|k: int| 0 <= k < model.len() implies r.deep_view()[k] == model[k] by {
            assert(r.deep_view()[k] == r@[k].deep_view());
        }
        assert(r.deep_view() =~= model);
    }
    r
}

/// Walks the traversal listing once and keeps every eligible file, paired
/// with its flat name. Entries under `output_path` are never kept, so a
/// prior run's artifacts are not re-collected.
pub fn collect_files(
    entries: &Vec<Entry>,
    filter: &FileFilter,
    output_path: &Vec<String>,
    delimiter: &str,
) -> (r: Vec<CollectedEntry>)
    requires
        forall|i: int| 0 <= i < entries@.len() ==> (#[trigger] entries@[i])@.wf(),
    ensures
        r.deep_view() == spec_collect(
            entries.deep_view(),
            *filter,
            output_path.deep_view(),
            delimiter@,
        ),
{
    let ghost em = entries.deep_view();
    let ghost out = output_path.deep_view();
    let mut r: Vec<CollectedEntry> = Vec::new();
    let mut i: usize = 0;
    proof {
        assert(em.len() == entries@.len());
        assert(deep_of(r@) =~= spec_collect(em.subrange(0, 0), *filter, out, delimiter@));
        assert(r.deep_view() =~= deep_of(r@));
    }
    while i < entries.len()
        invariant
            0 <= i <= entries.len(),
            em == entries.deep_view(),
            out == output_path.deep_view(),
            em.len() == entries.len(),
            forall|k: int| 0 <= k < entries@.len() ==> (#[trigger] entries@[k])@.wf(),
            r.deep_view() == spec_collect(em.subrange(0, i as int), *filter, out, delimiter@),
        decreases entries.len() - i,
    {
        proof {
            assert(em[i as int] == entries@[i as int]@);
            assert(em.subrange(0, i + 1 as int).drop_last() =~= em.subrange(0, i as int));
            assert(em.subrange(0, i + 1 as int).last() == em[i as int]);
        }
        let e = &entries[i];
        assert(e@.wf());
        if !e.is_dir && !path_starts_with(&e.components, output_path) && filter.should_process_file(
            &e.components,
        ) {
            let flat = generate_new_filename(&e.components, delimiter);
            let ghost prev = r@;
            let ce = CollectedEntry { components: clone_names(&e.components), flat_name: flat };
            assert(ce@ == CollectedModel {
                components: e@.components,
                flat_name: joined(e@.components, delimiter@),
            });
            r.push(ce);
            proof {
                assert(r@ == prev.push(ce));
                assert forall|k: int| 0 <= k < r@.len() implies r.deep_view()[k] == deep_of(
                    prev,
                ).push(ce@)[k] by {
                    assert(r.deep_view()[k] == r@[k].deep_view());
                    if k < prev.len() {
                        assert(r@[k] == prev[k]);
                    }
                }
                assert(r.deep_view() =~= deep_of(prev).push(ce@));
                assert(deep_of(prev) =~= spec_collect(em.subrange(0, i as int), *filter, out, delimiter@)) by {
                    assert forall|k: int| 0 <= k < prev.len() implies deep_of(prev)[k]
                        == spec_collect(em.subrange(0, i as int), *filter, out, delimiter@)[k] by {
                        assert(deep_of(prev)[k] == prev[k].deep_view());
                    }
                }
            }
        } else {
            assert(!collects(em[i as int], *filter, out));
        }
        i = i + 1;
    }
    proof {
        assert(em.subrange(0, em.len() as int) =~= em);
    }
    r
}

/// Nothing collected lies under the output subfolder: a second run over a
/// tree that holds a first run's artifacts never re-collects them.
pub proof fn lemma_collect_excludes_output(
    entries: Seq<EntryModel>,
    f: FileFilter,
    out: Seq<Seq<char>>,
    delim: Seq<char>,
)
    ensures
        forall|k: int|
            0 <= k < spec_collect(entries, f, out, delim).len()
                ==> !starts_with_components(
                #[trigger] spec_collect(entries, f, out, delim)[k].components,
                out,
            ),
    decreases entries.len(),
{
    if entries.len() > 0 {
        lemma_collect_excludes_output(entries.drop_last(), f, out, delim);
        let rest = spec_collect(entries.drop_last(), f, out, delim);
        let r = spec_collect(entries, f, out, delim);
        assert forall|k: int| 0 <= k < r.len() implies !starts_with_components(
            r[k].components,
            out,
        ) by {
            if k < rest.len() {
                assert(r[k] == rest[k]);
            } else {
                assert(collects(entries.last(), f, out));
                assert(r[k].components == entries.last().components);
            }
        }
    }
}

/// A listing that gained only entries under the output subfolder — what a
/// second traversal sees after a first run wrote its artifacts — collects
/// exactly the same flat list, so an unchanged tree yields the same output
/// twice.
pub proof fn lemma_collect_unchanged_by_output(
    entries: Seq<EntryModel>,
    extra: Seq<EntryModel>,
    f: FileFilter,
    out: Seq<Seq<char>>,
    delim: Seq<char>,
)
    requires
        forall|i: int|
            0 <= i < extra.len() ==> starts_with_components(
                (#[trigger] extra[i]).components,
                out,
            ),
    ensures
        spec_collect(entries + extra, f, out, delim) == spec_collect(entries, f, out, delim),
    decreases extra.len(),
{
    if extra.len() == 0 {
        assert(entries + extra =~= entries);
    } else {
        let front = extra.drop_last();
        assert(forall|i: int| 0 <= i < front.len() ==> front[i] == extra[i]);
        lemma_collect_unchanged_by_output(entries, front, f, out, delim);
        assert((entries + extra).drop_last() =~= entries + front);
        assert((entries + extra).last() == extra.last());
        assert(!collects(extra.last(), f, out));
    }
}

/// A path occurs in the collected list exactly when some traversal entry
/// carries that path and the walker keeps that entry.
pub proof fn lemma_collect_membership(
    entries: Seq<EntryModel>,
    f: FileFilter,
    out: Seq<Seq<char>>,
    delim: Seq<char>,
    cs: Seq<Seq<char>>,
)
    ensures
        (exists|k: int|
            0 <= k < spec_collect(entries, f, out, delim).len() && spec_collect(
                entries,
                f,
                out,
                delim,
            )[k].components == cs) <==> (exists|i: int|
            0 <= i < entries.len() && entries[i].components == cs && collects(entries[i], f, out)),
    decreases entries.len(),
{
    let r = spec_collect(entries, f, out, delim);
    if entries.len() == 0 {
    } else {
        let front = entries.drop_last();
        let rp = spec_collect(front, f, out, delim);
        lemma_collect_membership(front, f, out, delim, cs);
        assert(forall|i: int| 0 <= i < front.len() ==> front[i] == entries[i]);
        if exists|k: int| 0 <= k < r.len() && r[k].components == cs {
            let k = choose|k: int| 0 <= k < r.len() && r[k].components == cs;
            if k < rp.len() {
                assert(rp[k] == r[k]);
                assert(exists|i: int|
                    0 <= i < entries.len() && entries[i].components == cs && collects(
                        entries[i],
                        f,
                        out,
                    ));
            } else {
                assert(collects(entries.last(), f, out) && entries.last().components == cs);
                assert(entries[entries.len() - 1] == entries.last());
            }
        }
        if exists|i: int|
            0 <= i < entries.len() && entries[i].components == cs && collects(entries[i], f, out) {
            let i = choose|i: int|
                0 <= i < entries.len() && entries[i].components == cs && collects(
                    entries[i],
                    f,
                    out,
                );
            if i < entries.len() - 1 {
                assert(front[i].components == cs && collects(front[i], f, out));
                let k = choose|k: int| 0 <= k < rp.len() && rp[k].components == cs;
                assert(r[k] == rp[k]);
                assert(exists|k2: int| 0 <= k2 < r.len() && r[k2].components == cs);
            } else {
                assert(entries.last() == entries[i]);
                assert(r.last().components == cs);
                assert(exists|k2: int| 0 <= k2 < r.len() && r[k2].components == cs);
            }
        }
    }
}

/// With a non-empty allowlist, a file that no other gate excludes is
/// collected exactly when its name has an extension that matches an
/// allowlist entry, ignoring case.
pub proof fn lemma_extension_gate(
    entries: Seq<EntryModel>,
    f: FileFilter,
    out: Seq<Seq<char>>,
    delim: Seq<char>,
    i: int,
)
    requires
        0 <= i < entries.len(),
        entries[i].wf(),
        !entries[i].is_dir,
        !starts_with_components(entries[i].components, out),
        crate::filter::path_passes(
            entries[i].components,
            false,
            f.spec_blocklist(),
            f.spec_matcher(),
        ),
        f.spec_allowed().len() > 0,
    ensures
        (exists|k: int|
            0 <= k < spec_collect(entries, f, out, delim).len() && (#[trigger] spec_collect(
                entries,
                f,
                out,
                delim,
            )[k]).components == entries[i].components) <==> (ext_of(entries[i].components.last())
            is Some && in_list_ci(ext_of(entries[i].components.last())->0, f.spec_allowed())),
{
    let cs = entries[i].components;
    lemma_collect_membership(entries, f, out, delim, cs);
    if ext_of(cs.last()) is Some && in_list_ci(ext_of(cs.last())->0, f.spec_allowed()) {
        assert(collects(entries[i], f, out));
    }
    if exists|j: int|
        0 <= j < entries.len() && entries[j].components == cs && collects(entries[j], f, out) {
        let j = choose|j: int|
            0 <= j < entries.len() && entries[j].components == cs && collects(entries[j], f, out);
        assert(f.spec_file_passes(cs));
    }
}

} // verus!
