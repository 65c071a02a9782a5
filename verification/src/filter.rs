//! The path classifier: decides, for a filesystem entry under the root,
//! whether it is eligible, given the compiled ignore rules, the directory
//! blocklist, and the extension allowlist.

use vstd::prelude::*;

use crate::config::Config;
use crate::ignore_rules::IgnoreMatcher;
use crate::ignore_rules::gitignore_accepts;
use crate::text::ext_of;
use crate::text::extension_of;
use crate::text::in_list_ci;
use crate::text::contains_ci;
use crate::text::joined;
use crate::text::join_components;

verus! {

/// One filesystem entry under the root: its path as components relative to
/// the root, and whether it is a directory.
pub struct Entry {
    pub components: Vec<String>,
    pub is_dir: bool,
}

/// The mathematical shape of an entry.
pub struct EntryModel {
    pub components: Seq<Seq<char>>,
    pub is_dir: bool,
}

impl View for Entry {
    type V = EntryModel;

    open spec fn view(&self) -> EntryModel {
        EntryModel { components: self.components.deep_view(), is_dir: self.is_dir }
    }
}

impl DeepView for Entry {
    type V = EntryModel;

    open spec fn deep_view(&self) -> EntryModel {
        self.view()
    }
}

impl EntryModel {
    /// An entry names at least its own basename: the root itself is not an
    /// entry.
    pub open spec fn wf(self) -> bool {
        self.components.len() >= 1
    }
}

impl Entry {
    pub open spec fn wf(self) -> bool {
        self@.wf()
    }
}

/// Whether some component of the path matches the blocklist, ignoring case.
/// This is what makes blocklisting depth-independent: one blocklisted name
/// anywhere in the path disqualifies the entry and all its descendants.
pub open spec fn has_blocked_component(
    components: Seq<Seq<char>>,
    blocklist: Seq<Seq<char>>,
) -> bool {
    exists|i: int| 0 <= i < components.len() && in_list_ci(components[i], blocklist)
}

/// Whether a path passes the two gates that apply to files and directories
/// alike: its root-relative, `/`-joined form is not ignored by the gitignore
/// rules, and no component of it matches the blocklist.
pub open spec fn path_passes(
    components: Seq<Seq<char>>,
    is_dir: bool,
    blocklist: Seq<Seq<char>>,
    matcher: IgnoreMatcher,
) -> bool {
    &&& !matcher.spec_ignored(joined(components, "/"@), is_dir)
    &&& !has_blocked_component(components, blocklist)
}

/// Whether a file name passes the extension allowlist: vacuously when the
/// allowlist is empty, and otherwise only when the name has an extension
/// that matches an allowlist entry ignoring case.
pub open spec fn passes_extension(name: Seq<char>, allowed: Seq<Seq<char>>) -> bool {
    allowed.len() == 0 || {
        &&& ext_of(name) is Some
        &&& in_list_ci(ext_of(name)->0, allowed)
    }
}

/// The classifier: ignore rules, blocklist and allowlist, applied the same
/// way by every consumer of the selection pipeline.
pub struct FileFilter {
    allowed_extensions: Vec<String>,
    ignored_directories: Vec<String>,
    matcher: IgnoreMatcher,
}

impl FileFilter {
    /// The extension allowlist this classifier applies.
    pub closed spec fn spec_allowed(self) -> Seq<Seq<char>> {
        self.allowed_extensions.deep_view()
    }

    /// The directory blocklist this classifier applies.
    pub closed spec fn spec_blocklist(self) -> Seq<Seq<char>> {
        self.ignored_directories.deep_view()
    }

    /// The compiled ignore rules this classifier consults.
    pub closed spec fn spec_matcher(self) -> IgnoreMatcher {
        self.matcher
    }

    /// Whether a file at this root-relative path is eligible: both general
    /// gates, then the extension gate, which applies to files alone.
    pub open spec fn spec_file_passes(self, components: Seq<Seq<char>>) -> bool {
        &&& path_passes(components, false, self.spec_blocklist(), self.spec_matcher())
        &&& passes_extension(components.last(), self.spec_allowed())
    }

    /// Builds the classifier for one run. `gitignore_text` is the content of
    /// the pattern file found at the root, if there was one; it is honoured
    /// only when the configuration says so. Fails exactly when pattern text
    /// is to be honoured and the ignore rules refuse to compile it.
    pub fn new(config: &Config, gitignore_text: Option<String>) -> (r: Option<FileFilter>)
        ensures
            match r {
                Some(f) => {
                    &&& f.spec_allowed() == config.allowed_extensions.deep_view()
                    &&& f.spec_blocklist() == config.ignored_directories.deep_view()
                    &&& match gitignore_text {
                        Some(t) if config.respect_gitignore => f.spec_matcher().spec_rules()
                            == Some(t@),
                        _ => f.spec_matcher().spec_rules() is None,
                    }
                },
                None => {
                    &&& config.respect_gitignore
                    &&& gitignore_text is Some
                    &&& !gitignore_accepts(gitignore_text->0@)
                },
            },
    {
        let matcher = if config.respect_gitignore {
            match gitignore_text {
                Some(t) => match IgnoreMatcher::from_rules(t) {
                    Some(m) => m,
                    None => {
                        return None;
                    },
                },
                None => IgnoreMatcher::empty(),
            }
        } else {
            IgnoreMatcher::empty()
        };
        Some(
            FileFilter {
                allowed_extensions: clone_names(&config.allowed_extensions),
                ignored_directories: clone_names(&config.ignored_directories),
                matcher,
            },
        )
    }

    /// Applies the two general gates to a root-relative path.
    pub fn should_process_path(
        components: &Vec<String>,
        is_dir: bool,
        ignored_directories: &Vec<String>,
        matcher: &IgnoreMatcher,
    ) -> (r: bool)
        ensures
            r == path_passes(components.deep_view(), is_dir, ignored_directories.deep_view(), *matcher),
    {
        let rel = join_components(components, "/");
        if matcher.is_ignored(rel.as_str(), is_dir) {
            return false;
        }
        let ghost model = components.deep_view();
        let mut i: usize = 0;
        while i < components.len()
            invariant
                0 <= i <= components.len(),
                model == components.deep_view(),
                model.len() == components.len(),
                forall|k: int| 0 <= k < i ==> !in_list_ci(model[k], ignored_directories.deep_view()),
            decreases components.len() - i,
        {
            assert(model[i as int] == components@[i as int]@);
            if contains_ci(ignored_directories, components[i].as_str()) {
                return false;
            }
            i = i + 1;
        }
        true
    }

    /// Decides whether the file at this root-relative path is collected.
    pub fn should_process_file(&self, components: &Vec<String>) -> (r: bool)
        requires
            components@.len() >= 1,
        ensures
            r == self.spec_file_passes(components.deep_view()),
    {
        if !Self::should_process_path(components, false, &self.ignored_directories, &self.matcher) {
            return false;
        }
        if self.allowed_extensions.len() == 0 {
            return true;
        }
        let ghost model = components.deep_view();
        assert(model.last() == components@[components@.len() - 1]@);
        match extension_of(components[components.len() - 1].as_str()) {
            None => false,
            Some(e) => contains_ci(&self.allowed_extensions, e.as_str()),
        }
    }

    /// The ignore rules this classifier consults, for consumers that share
    /// them.
    pub fn gitignore(&self) -> (r: &IgnoreMatcher)
        ensures
            *r == self.spec_matcher(),
    {
        &self.matcher
    }
}

/// Copies a list of names.
fn clone_names(names: &Vec<String>) -> (r: Vec<String>)
    ensures
        r.deep_view() == names.deep_view(),
{
    let ghost model = names.deep_view();
    let mut r: Vec<String> = Vec::new();
    let mut i: usize = 0;
    while i < names.len()
        invariant
            0 <= i <= names.len(),
            model == names.deep_view(),
            model.len() == names.len(),
            r@.len() == i,
            forall|k: int| 0 <= k < i ==> r@[k]@ == model[k],
        decreases names.len() - i,
    {
        assert(model[i as int] == names@[i as int]@);
        r.push(names[i].clone());
        i = i + 1;
    }
    proof {
        assert forall|k: int| 0 <= k < model.len() implies r.deep_view()[k] == model[k] by {
            assert(r.deep_view()[k] == r@[k].deep_view());
        }
        assert(r.deep_view() =~= model);
    }
    r
}

/// No file with a blocklisted name anywhere on its path is ever eligible,
/// whatever its own name or extension, and no directory with one passes the
/// general gates.
pub proof fn lemma_blocked_ancestor_rejects(
    f: FileFilter,
    components: Seq<Seq<char>>,
    is_dir: bool,
    i: int,
)
    requires
        0 <= i < components.len(),
        in_list_ci(components[i], f.spec_blocklist()),
    ensures
        !f.spec_file_passes(components),
        !path_passes(components, is_dir, f.spec_blocklist(), f.spec_matcher()),
{
    assert(has_blocked_component(components, f.spec_blocklist()));
}

} // verus!
