//! References: which of them label a commit, and how a label looks.

use vstd::prelude::*;

use crate::oid::Oid;
use crate::seqs::{are_places, lemma_filter_members, lemma_filter_places};
use crate::text::{chars_of, same_text, starts_with, starts_with_text};

verus! {

/// A reference of the repository.
pub struct RefEntry {
    /// The object that it points at, unless it points at another reference.
    pub target: Option<Oid>,
    /// Its short name, where that is text.
    pub shorthand: Option<String>,
    /// Its full name, where that is text.
    pub name: Option<String>,
}

/// The mathematical content of a `RefEntry`.
pub struct RefView {
    pub target: Option<Oid>,
    pub shorthand: Option<Seq<char>>,
    pub name: Option<Seq<char>>,
}

/// The content of an optional string.
pub open spec fn option_view(s: Option<String>) -> Option<Seq<char>> {
    match s {
        Some(text) => Some(text@),
        None => None,
    }
}

impl View for RefEntry {
    type V = RefView;

    open spec fn view(&self) -> RefView {
        RefView {
            target: self.target,
            shorthand: option_view(self.shorthand),
            name: option_view(self.name),
        }
    }
}

/// The contents of a list of references.
pub open spec fn ref_views(entries: Seq<RefEntry>) -> Seq<RefView> {
    entries.map_values(|e: RefEntry| e@)
}

/// Whether a full name is that of a branch, a remote branch or a tag.
pub open spec fn is_label_name(name: Seq<char>) -> bool {
    ||| starts_with_text(name, "refs/heads/"@)
    ||| starts_with_text(name, "refs/remotes/"@)
    ||| starts_with_text(name, "refs/tags/"@)
}

/// Whether a reference labels the commit `oid`.
pub open spec fn is_label(entry: RefView, oid: Oid) -> bool {
    &&& entry.target == Some(oid)
    &&& entry.shorthand is Some
    &&& entry.name is Some
    &&& is_label_name(entry.name->0)
}

/// What a label stands for, which decides how it looks.
#[derive(Clone, Copy, Debug, PartialEq, Eq, Structural)]
pub enum RefClass {
    Head,
    Remote,
    Tag,
    Branch,
}

/// A label of a commit.
#[derive(Clone)]
pub struct RefLabel {
    pub name: String,
    pub class: RefClass,
}

/// The mathematical content of a `RefLabel`.
pub struct LabelView {
    pub name: Seq<char>,
    pub class: RefClass,
}

impl View for RefLabel {
    type V = LabelView;

    open spec fn view(&self) -> LabelView {
        LabelView { name: self.name@, class: self.class }
    }
}

/// The contents of a list of labels.
pub open spec fn label_views(labels: Seq<RefLabel>) -> Seq<LabelView> {
    labels.map_values(|l: RefLabel| l@)
}

/// What a reference with the given full name is.
pub open spec fn class_of(full_name: Seq<char>) -> RefClass {
    if starts_with_text(full_name, "refs/remotes/"@) {
        RefClass::Remote
    } else if starts_with_text(full_name, "refs/tags/"@) {
        RefClass::Tag
    } else {
        RefClass::Branch
    }
}

/// The label of a reference: its short name, in the look of what it is.
pub open spec fn label_of(entry: RefView) -> LabelView {
    LabelView { name: entry.shorthand->0, class: class_of(entry.name->0) }
}

/// The labels of the references at the commit `oid`, in their order.
pub open spec fn reference_labels(entries: Seq<RefView>, oid: Oid) -> Seq<LabelView> {
    entries.filter(|e: RefView| is_label(e, oid)).map_values(|e: RefView| label_of(e))
}

/// The label of `HEAD`.
pub open spec fn head_label() -> LabelView {
    LabelView { name: "HEAD"@, class: RefClass::Head }
}

/// Whether a label has the name `HEAD`.
pub open spec fn names_head(labels: Seq<LabelView>) -> bool {
    exists|k: int| 0 <= k < labels.len() && (#[trigger] labels[k]).name == "HEAD"@
}

/// The labels of the commit `oid`: `HEAD` first where it points at the commit,
/// unless a reference has that name already.
pub open spec fn labels_of(entries: Seq<RefView>, head: Option<Oid>, oid: Oid) -> Seq<LabelView> {
    let labels = reference_labels(entries, oid);
    if head == Some(oid) && !names_head(labels) {
        seq![head_label()] + labels
    } else {
        labels
    }
}

/// Decides what a reference with the given full name is.
pub fn ref_class(full_name: &str) -> (class: RefClass)
    ensures
        class == (if starts_with_text(full_name@, "refs/remotes/"@) {
            RefClass::Remote
        } else if starts_with_text(full_name@, "refs/tags/"@) {
            RefClass::Tag
        } else {
            RefClass::Branch
        }),
{
    let chars = chars_of(full_name);
    if starts_with(&chars, "refs/remotes/") {
        RefClass::Remote
    } else if starts_with(&chars, "refs/tags/") {
        RefClass::Tag
    } else {
        RefClass::Branch
    }
}

/// Whether an optional id is `oid`.
fn is_oid(target: &Option<Oid>, oid: Oid) -> (r: bool)
    ensures
        r == (*target == Some(oid)),
{
    match target {
        Some(t) => *t == oid,
        None => false,
    }
}

/// The label of a reference, if it labels the commit `oid`.
fn label(entry: &RefEntry, oid: Oid) -> (r: Option<RefLabel>)
    ensures
        r is Some <==> is_label(entry@, oid),
        r matches Some(label) ==> label@ == label_of(entry@),
{
    if !is_oid(&entry.target, oid) {
        return None;
    }
    match (&entry.shorthand, &entry.name) {
        (Some(shorthand), Some(name)) => {
            let chars = chars_of(name.as_str());
            if starts_with(&chars, "refs/heads/") || starts_with(&chars, "refs/remotes/")
                || starts_with(&chars, "refs/tags/") {
                Some(RefLabel { name: shorthand.clone(), class: ref_class(name.as_str()) })
            } else {
                None
            }
        },
        _ => None,
    }
}

/// Whether a label has the name `HEAD`.
fn has_head(labels: &Vec<RefLabel>) -> (r: bool)
    ensures
        r == names_head(label_views(labels@)),
{
    for i in 0..labels.len()
        invariant
            forall|k: int| 0 <= k < i ==> (#[trigger] labels@[k]).name@ != "HEAD"@,
    {
        if same_text(labels[i].name.as_str(), "HEAD") {
            assert(label_views(labels@)[i as int].name == "HEAD"@);
            return true;
        }
    }
    false
}

/// The labels of the commit `oid` among the references of the repository, whose
/// `HEAD` points at `head`.
pub fn collect_refs(entries: &Vec<RefEntry>, head: Option<Oid>, oid: Oid) -> (refs: Vec<RefLabel>)
    ensures
        label_views(refs@) == labels_of(ref_views(entries@), head, oid),
{
    let mut refs: Vec<RefLabel> = Vec::new();
    let ghost all = ref_views(entries@);
    assert(all.take(0) =~= Seq::<RefView>::empty());
    assert(label_views(refs@) =~= reference_labels(all.take(0), oid)) by {
        reveal(Seq::filter);
    }
    for i in 0..entries.len()
        invariant
            all == ref_views(entries@),
            label_views(refs@) == reference_labels(all.take(i as int), oid),
    {
        let ghost before = refs@;
        proof {
            reveal(Seq::filter);
            assert(all.take(i + 1).drop_last() =~= all.take(i as int));
            assert(all.take(i + 1).last() == entries@[i as int]@);
        }
        if let Some(label) = label(&entries[i], oid) {
            refs.push(label);
            assert(label_views(refs@) =~= label_views(before).push(label@));
        }
        assert(label_views(refs@) =~= reference_labels(all.take(i + 1), oid));
    }
    assert(all.take(all.len() as int) =~= all);
    if is_oid(&head, oid) && !has_head(&refs) {
        let ghost labels = refs@;
        refs.insert(0, RefLabel { name: "HEAD".to_owned(), class: RefClass::Head });
        assert(label_views(refs@) =~= seq![head_label()] + label_views(labels));
    }
    refs
}

/// The commit that `HEAD` points at has a label with the name `HEAD`.
pub proof fn law_head_is_labelled(entries: Seq<RefView>, oid: Oid)
    ensures
        names_head(labels_of(entries, Some(oid), oid)),
{
    let labels = reference_labels(entries, oid);
    if !names_head(labels) {
        assert((seq![head_label()] + labels)[0].name == "HEAD"@);
    }
}

/// A label has the look of `HEAD` only where it comes first, has that name, and
/// `HEAD` points at the commit.
pub proof fn law_head_comes_first(entries: Seq<RefView>, head: Option<Oid>, oid: Oid, k: int)
    requires
        0 <= k < labels_of(entries, head, oid).len(),
        labels_of(entries, head, oid)[k].class == RefClass::Head,
    ensures
        k == 0,
        labels_of(entries, head, oid)[k] == head_label(),
        head == Some(oid),
{
    let labels = reference_labels(entries, oid);
    assert forall|j: int| 0 <= j < labels.len() implies (#[trigger] labels[j]).class
        != RefClass::Head by {}
    if head == Some(oid) && !names_head(labels) && k > 0 {
        assert(labels_of(entries, head, oid)[k] == labels[k - 1]);
    }
}

/// Any other label is that of a branch, remote branch or tag at the commit, in
/// the look of what the reference is; and each of these references has its label.
pub proof fn law_labels_are_references(
    entries: Seq<RefView>,
    head: Option<Oid>,
    oid: Oid,
    label: LabelView,
)
    requires
        label.class != RefClass::Head,
    ensures
        labels_of(entries, head, oid).contains(label) <==> exists|k: int|
            0 <= k < entries.len() && is_label(#[trigger] entries[k], oid) && label_of(entries[k])
                == label,
{
    let keep = |e: RefView| is_label(e, oid);
    let kept = entries.filter(keep);
    let own = reference_labels(entries, oid);
    let labels = labels_of(entries, head, oid);
    lemma_filter_members(entries, keep);
    assert(labels.contains(label) <==> own.contains(label)) by {
        if head == Some(oid) && !names_head(own) {
            if labels.contains(label) {
                let k = choose|k: int| 0 <= k < labels.len() && labels[k] == label;
                assert(own[k - 1] == label);
            }
            if own.contains(label) {
                let k = choose|k: int| 0 <= k < own.len() && own[k] == label;
                assert(labels[k + 1] == label);
            }
        }
    }
    if own.contains(label) {
        let k = choose|k: int| 0 <= k < own.len() && own[k] == label;
        assert(kept.contains(kept[k]));
        assert(entries.contains(kept[k]));
        let j = choose|j: int| 0 <= j < entries.len() && entries[j] == kept[k];
        assert(is_label(entries[j], oid));
    }
    if exists|k: int|
        0 <= k < entries.len() && is_label(#[trigger] entries[k], oid) && label_of(entries[k])
            == label {
        let k = choose|k: int|
            0 <= k < entries.len() && is_label(#[trigger] entries[k], oid) && label_of(entries[k])
                == label;
        assert(entries.contains(entries[k]));
        assert(kept.contains(entries[k]));
        let j = choose|j: int| 0 <= j < kept.len() && kept[j] == entries[k];
        assert(own[j] == label);
    }
}

impl RefClass {
    /// The style class that labels of this look have.
    pub fn css_class(self) -> (class: &'static str)
        ensures
            class@ == (match self {
                RefClass::Head => "ref-head"@,
                RefClass::Remote => "ref-remote"@,
                RefClass::Tag => "ref-tag"@,
                RefClass::Branch => "ref-branch"@,
            }),
    {
        match self {
            RefClass::Head => "ref-head",
            RefClass::Remote => "ref-remote",
            RefClass::Tag => "ref-tag",
            RefClass::Branch => "ref-branch",
        }
    }
}

/// The contents of references and labels are what their fields hold.
pub proof fn law_contents_of_references(entries: Seq<RefEntry>, labels: Seq<RefLabel>, i: int)
    ensures
        ref_views(entries).len() == entries.len(),
        0 <= i < entries.len() ==> {
            &&& ref_views(entries)[i].target == entries[i].target
            &&& entries[i].shorthand matches Some(text) ==> ref_views(entries)[i].shorthand == Some(
                text@,
            )
            &&& entries[i].shorthand is None ==> ref_views(entries)[i].shorthand is None
            &&& entries[i].name matches Some(text) ==> ref_views(entries)[i].name == Some(text@)
            &&& entries[i].name is None ==> ref_views(entries)[i].name is None
        },
        label_views(labels).len() == labels.len(),
        0 <= i < labels.len() ==> label_views(labels)[i].name == labels[i].name@
            && label_views(labels)[i].class == labels[i].class,
{
}

/// An optional text is what it holds.
pub proof fn law_optional_text(text: Option<String>)
    ensures
        text matches Some(t) ==> option_view(text) == Some(t@),
        text is None ==> option_view(text) is None,
{
}

/// The labels of a commit come from the references `at`, in their order: those
/// that point at the commit, have a short name, and whose full name is that of a
/// branch, a remote branch or a tag. Each label is the short name, in the look of
/// what the full name says. `HEAD` comes before them where it points at the commit
/// and none of them has that name, and nothing else does.
pub proof fn law_labels_of_a_commit(entries: Seq<RefView>, head: Option<Oid>, oid: Oid) -> (at: Seq<
    int,
>)
    ensures
        ({
            let labels = labels_of(entries, head, oid);
            let first = labels.len() - at.len();
            &&& are_places(at, entries.len() as int)
            &&& forall|i: int|
                0 <= i < entries.len() ==> (#[trigger] at.contains(i) <==> {
                    &&& entries[i].target == Some(oid)
                    &&& entries[i].shorthand is Some
                    &&& entries[i].name is Some
                    &&& "refs/heads/"@.is_prefix_of(entries[i].name->0)
                        || "refs/remotes/"@.is_prefix_of(entries[i].name->0)
                        || "refs/tags/"@.is_prefix_of(entries[i].name->0)
                })
            &&& forall|k: int|
                0 <= k < at.len() ==> {
                    let entry = entries[#[trigger] at[k]];
                    let label = labels[first + k];
                    &&& Some(label.name) == entry.shorthand
                    &&& "refs/heads/"@.is_prefix_of(entry.name->0) ==> label.class
                        == RefClass::Branch
                    &&& "refs/remotes/"@.is_prefix_of(entry.name->0) ==> label.class
                        == RefClass::Remote
                    &&& "refs/tags/"@.is_prefix_of(entry.name->0) ==> label.class == RefClass::Tag
                }
            &&& first == 0 || first == 1
            &&& first == 1 <==> head == Some(oid) && forall|k: int|
                0 <= k < at.len() ==> entries[#[trigger] at[k]].shorthand != Some("HEAD"@)
            &&& first == 1 ==> labels[0].name == "HEAD"@ && labels[0].class == RefClass::Head
        }),
{
    let keep = |e: RefView| is_label(e, oid);
    let kept = entries.filter(keep);
    let own = reference_labels(entries, oid);
    let labels = labels_of(entries, head, oid);
    let at = lemma_filter_places(entries, keep);
    let first = labels.len() - at.len();
    assert(own.len() == at.len());
    assert forall|k: int| 0 <= k < at.len() implies own[k] == label_of(entries[#[trigger] at[k]])
        && entries[at[k]].shorthand is Some by {
        assert(kept[k] == entries[at[k]]);
    }
    assert(names_head(own) <==> exists|k: int|
        0 <= k < at.len() && entries[#[trigger] at[k]].shorthand == Some("HEAD"@)) by {
        if names_head(own) {
            let k = choose|k: int| 0 <= k < own.len() && (#[trigger] own[k]).name == "HEAD"@;
            assert(entries[at[k]].shorthand == Some("HEAD"@));
        }
        if exists|k: int| 0 <= k < at.len() && entries[#[trigger] at[k]].shorthand == Some(
            "HEAD"@,
        ) {
            let k = choose|k: int|
                0 <= k < at.len() && entries[#[trigger] at[k]].shorthand == Some("HEAD"@);
            assert(own[k].name == "HEAD"@);
        }
    }
    assert forall|k: int| 0 <= k < at.len() implies {
        let entry = entries[#[trigger] at[k]];
        let label = labels[first + k];
        &&& Some(label.name) == entry.shorthand
        &&& "refs/heads/"@.is_prefix_of(entry.name->0) ==> label.class == RefClass::Branch
        &&& "refs/remotes/"@.is_prefix_of(entry.name->0) ==> label.class == RefClass::Remote
        &&& "refs/tags/"@.is_prefix_of(entry.name->0) ==> label.class == RefClass::Tag
    } by {
        assert(labels[first + k] == own[k]);
        lemma_prefixes_differ(entries[at[k]].name->0);
    }
    at
}

/// A full name has one of the three starts at most.
proof fn lemma_prefixes_differ(name: Seq<char>)
    ensures
        !("refs/heads/"@.is_prefix_of(name) && "refs/remotes/"@.is_prefix_of(name)),
        !("refs/heads/"@.is_prefix_of(name) && "refs/tags/"@.is_prefix_of(name)),
        !("refs/remotes/"@.is_prefix_of(name) && "refs/tags/"@.is_prefix_of(name)),
{
    reveal_strlit("refs/heads/");
    reveal_strlit("refs/remotes/");
    reveal_strlit("refs/tags/");
    if "refs/heads/"@.is_prefix_of(name) {
        assert("refs/heads/"@[5] == name[5]);
    }
    if "refs/remotes/"@.is_prefix_of(name) {
        assert("refs/remotes/"@[5] == name[5]);
    }
    if "refs/tags/"@.is_prefix_of(name) {
        assert("refs/tags/"@[5] == name[5]);
    }
}

} // verus!
