//! The panels around the editor: the outline, the list of tables and the grouped table,
//! as far as it is decided without the window.

use vstd::prelude::*;

use crate::diagnostics::{DiagnosticView, Severity};
use crate::syntax::{RonValue, Shape};
use crate::text;

verus! {

/// A step from a value to one inside it.
#[derive(Debug, PartialEq, Eq)]
pub enum PathStep {
    /// To a field of a struct.
    Field(String),
    /// To a field of an enum variant.
    VariantField(String),
    /// To the value under a key.
    Key(String),
    /// To an element.
    Index(usize),
    /// To all values of a field, over all entries.
    CombinedChild(String),
}

/// A step as a mathematical value.
pub enum Step {
    Field(Seq<char>),
    VariantField(Seq<char>),
    Key(Seq<char>),
    Index(nat),
    CombinedChild(Seq<char>),
}

impl View for PathStep {
    type V = Step;

    open spec fn view(&self) -> Step {
        match self {
            PathStep::Field(name) => Step::Field(name@),
            PathStep::VariantField(name) => Step::VariantField(name@),
            PathStep::Key(key) => Step::Key(key@),
            PathStep::Index(i) => Step::Index(*i as nat),
            PathStep::CombinedChild(field) => Step::CombinedChild(field@),
        }
    }
}

impl Clone for PathStep {
    fn clone(&self) -> (r: Self)
        ensures
            r@ == self@,
    {
        match self {
            PathStep::Field(name) => PathStep::Field(name.clone()),
            PathStep::VariantField(name) => PathStep::VariantField(name.clone()),
            PathStep::Key(key) => PathStep::Key(key.clone()),
            PathStep::Index(i) => PathStep::Index(*i),
            PathStep::CombinedChild(field) => PathStep::CombinedChild(field.clone()),
        }
    }
}

impl PathStep {
    fn same(&self, other: &PathStep) -> (r: bool)
        ensures
            r == (self@ == other@),
    {
        match (self, other) {
            (PathStep::Field(a), PathStep::Field(b)) => text::same_text(a.as_str(), b.as_str()),
            (PathStep::VariantField(a), PathStep::VariantField(b)) => text::same_text(
                a.as_str(),
                b.as_str(),
            ),
            (PathStep::Key(a), PathStep::Key(b)) => text::same_text(a.as_str(), b.as_str()),
            (PathStep::Index(a), PathStep::Index(b)) => *a == *b,
            (PathStep::CombinedChild(a), PathStep::CombinedChild(b)) => text::same_text(
                a.as_str(),
                b.as_str(),
            ),
            _ => false,
        }
    }
}

/// The way from the root to a value.
#[derive(Debug, PartialEq, Eq)]
pub struct StructuralPath {
    pub steps: Vec<PathStep>,
}

impl View for StructuralPath {
    type V = Seq<Step>;

    open spec fn view(&self) -> Seq<Step> {
        self.steps@.map_values(|s: PathStep| s@)
    }
}

impl StructuralPath {
    /// The way to the root itself.
    pub fn root() -> (r: Self)
        ensures
            r@ == Seq::<Step>::empty(),
    {
        let r = StructuralPath { steps: Vec::new() };
        assert(r@ =~= Seq::<Step>::empty());
        r
    }

    /// The first `n` steps.
    pub fn prefix(&self, n: usize) -> (r: Self)
        requires
            n <= self.steps@.len(),
        ensures
            r@ == self@.take(n as int),
    {
        let mut steps: Vec<PathStep> = Vec::new();
        let mut i: usize = 0;
        while i < n
            invariant
                i <= n <= self.steps@.len(),
                steps@.len() == i,
                forall|j: int| 0 <= j < i ==> (#[trigger] steps@[j])@ == self.steps@[j]@,
            decreases n - i,
        {
            steps.push(self.steps[i].clone());
            i += 1;
        }
        let r = StructuralPath { steps };
        assert(r@ =~= self@.take(n as int));
        r
    }

    /// The way to one step further.
    pub fn child(&self, step: PathStep) -> (r: Self)
        ensures
            r@ == self@.push(step@),
    {
        let mut r = self.prefix(self.steps.len());
        assert(self@.take(self.steps@.len() as int) =~= self@);
        let ghost before = r@;
        r.steps.push(step);
        assert(r@ =~= before.push(step@));
        r
    }

    /// Whether two ways are the same.
    pub fn same(&self, other: &StructuralPath) -> (r: bool)
        ensures
            r == (self@ == other@),
    {
        if self.steps.len() != other.steps.len() {
            assert(self@.len() != other@.len());
            return false;
        }
        let mut i: usize = 0;
        while i < self.steps.len()
            invariant
                i <= self.steps@.len(),
                self.steps@.len() == other.steps@.len(),
                forall|j: int| 0 <= j < i ==> (#[trigger] self@[j]) == other@[j],
            decreases self.steps@.len() - i,
        {
            if !self.steps[i].same(&other.steps[i]) {
                assert(self@[i as int] != other@[i as int]);
                return false;
            }
            i += 1;
        }
        assert(self@ =~= other@);
        true
    }
}

/// What a step is called.
pub open spec fn label_of(step: Step) -> Seq<char> {
    match step {
        Step::Field(name) => name,
        Step::VariantField(name) => name,
        Step::Key(key) => "("@ + key + ")"@,
        Step::Index(i) => "["@ + text::decimal(i) + "]"@,
        Step::CombinedChild(field) => "\u{2217} "@ + field,
    }
}

/// What a step is called: a field by its name, a key in parentheses, an index in
/// brackets.
pub fn step_label(step: &PathStep) -> (r: String)
    ensures
        r@ == label_of(step@),
{
    match step {
        PathStep::Field(name) => name.clone(),
        PathStep::VariantField(name) => name.clone(),
        PathStep::Key(key) => {
            let mut r = "(".to_owned();
            r.push_str(key.as_str());
            r.push_str(")");
            r
        },
        PathStep::Index(i) => {
            let mut r = "[".to_owned();
            text::push_decimal(&mut r, *i);
            r.push_str("]");
            r
        },
        PathStep::CombinedChild(field) => {
            let mut r = "\u{2217} ".to_owned();
            r.push_str(field.as_str());
            r
        },
    }
}

/// A value that can be shown as a table.
#[derive(Debug, PartialEq, Eq)]
pub struct TableSection {
    pub path: StructuralPath,
    pub label: String,
    pub rows: usize,
    pub cols: usize,
}

/// The row of a table in the list of tables.
pub fn section_label(section: &TableSection) -> (r: String)
    ensures
        r@ == section.label@ + "  ("@ + text::decimal(section.rows as nat) + "\u{00D7}"@
            + text::decimal(section.cols as nat) + ")"@,
{
    let mut r = section.label.clone();
    r.push_str("  (");
    text::push_decimal(&mut r, section.rows);
    r.push_str("\u{00D7}");
    text::push_decimal(&mut r, section.cols);
    r.push_str(")");
    r
}

/// The group that a table belongs to: what the first step to it is called.
pub open spec fn group_of(section: TableSection) -> Seq<char> {
    if section.path@.len() > 0 {
        label_of(section.path@[0])
    } else {
        "(root)"@
    }
}

fn group_label(section: &TableSection) -> (r: String)
    ensures
        r@ == group_of(*section),
{
    if section.path.steps.len() > 0 {
        step_label(&section.path.steps[0])
    } else {
        "(root)".to_owned()
    }
}

/// The groups of the first `n` tables, each where it comes first.
pub open spec fn groups_seen(sections: Seq<TableSection>, n: nat) -> Seq<Seq<char>>
    decreases n,
{
    if n == 0 {
        Seq::empty()
    } else {
        let before = groups_seen(sections, (n - 1) as nat);
        let label = group_of(sections[n - 1]);
        if before.contains(label) {
            before
        } else {
            before.push(label)
        }
    }
}

/// A group of tables: what it is called, and where its tables are in the list.
#[derive(Debug, PartialEq, Eq)]
pub struct SectionGroup {
    pub label: String,
    pub members: Vec<usize>,
}

/// What groups are called.
pub open spec fn group_labels(groups: Seq<SectionGroup>) -> Seq<Seq<char>> {
    groups.map_values(|g: SectionGroup| g.label@)
}

/// Whether table `a` is listed before table `b` of the same group: it has more rows, or
/// as many and comes first.
pub open spec fn listed_before(sections: Seq<TableSection>, a: int, b: int) -> bool {
    sections[a].rows > sections[b].rows || (sections[a].rows == sections[b].rows && a < b)
}

/// Whether a group lists exactly those of the first `n` tables that belong to it, each
/// once, the one with the most rows first.
pub open spec fn lists(group: SectionGroup, sections: Seq<TableSection>, n: nat) -> bool {
    &&& forall|m: int|
        0 <= m < group.members@.len() ==> (#[trigger] group.members@[m]) < n && group_of(
            sections[group.members@[m] as int],
        ) == group.label@
    &&& forall|i: int|
        0 <= i < n && group_of(#[trigger] sections[i]) == group.label@
            ==> group.members@.contains(i as usize)
    &&& forall|a: int, b: int|
        0 <= a < b < group.members@.len() ==> listed_before(
            sections,
            (#[trigger] group.members@[a]) as int,
            (#[trigger] group.members@[b]) as int,
        )
}

/// Puts the next table into the list of a group.
fn list_section(group: &mut SectionGroup, sections: &Vec<TableSection>, next: usize)
    requires
        next < sections@.len(),
        lists(*old(group), sections@, next as nat),
        group_of(sections@[next as int]) == old(group).label@,
    ensures
        final(group).label == old(group).label,
        lists(*final(group), sections@, (next + 1) as nat),
{
    let mut at: usize = group.members.len();
    while at > 0 && sections[group.members[at - 1]].rows < sections[next].rows
        invariant
            next < sections@.len(),
            at <= group.members@.len(),
            *group == *old(group),
            lists(*group, sections@, next as nat),
            forall|i: int|
                at <= i < group.members@.len() ==> sections@[(
                #[trigger] group.members@[i]) as int].rows < sections@[next as int].rows,
        decreases at,
    {
        at -= 1;
        if at > 0 {
            assert(group.members@[at - 1] < next);
        }
    }
    let ghost before = group.members@;
    group.members.insert(at, next);
    proof {
        let after = group.members@;
        assert(after =~= before.take(at as int).push(next) + before.skip(at as int));
        assert forall|m: int| 0 <= m < after.len() implies (#[trigger] after[m]) < next + 1
            && group_of(sections@[after[m] as int]) == group.label@ by {
            if m < at {
                assert(after[m] == before[m]);
            } else if m > at {
                assert(after[m] == before[m - 1]);
            }
        }
        assert forall|i: int|
            0 <= i < next + 1 && group_of(#[trigger] sections@[i]) == group.label@ implies after.contains(
            i as usize,
        ) by {
            if i == next {
                assert(after[at as int] == next);
            } else {
                let k = choose|k: int| 0 <= k < before.len() && before[k] == i as usize;
                if k < at {
                    assert(after[k] == i as usize);
                } else {
                    assert(after[k + 1] == i as usize);
                }
            }
        }
        assert forall|a: int, b: int| 0 <= a < b < after.len() implies listed_before(
            sections@,
            (#[trigger] after[a]) as int,
            (#[trigger] after[b]) as int,
        ) by {
            let a0 = if a < at {
                a
            } else {
                a - 1
            };
            let b0 = if b < at {
                b
            } else {
                b - 1
            };
            if a != at && b != at {
                assert(after[a] == before[a0] && after[b] == before[b0]);
            } else if a == at {
                assert(after[b] == before[b0]);
            } else {
                assert(after[a] == before[a]);
                assert(before[a] < next);
                let last = before[at - 1];
                assert(sections@[last as int].rows >= sections@[next as int].rows);
                if a < at - 1 {
                    assert(listed_before(sections@, before[a] as int, last as int));
                }
            }
        }
    }
}

/// The tables by groups: the groups in the order in which they come first, and in each
/// group the table with the most rows first.
pub fn group_sections(sections: &Vec<TableSection>) -> (r: Vec<SectionGroup>)
    ensures
        group_labels(r@) == groups_seen(sections@, sections@.len()),
        forall|g: int| 0 <= g < r@.len() ==> lists(#[trigger] r@[g], sections@, sections@.len()),
{
    let mut groups: Vec<SectionGroup> = Vec::new();
    let mut next: usize = 0;
    assert(group_labels(groups@) =~= groups_seen(sections@, 0));
    while next < sections.len()
        invariant
            next <= sections@.len(),
            group_labels(groups@) == groups_seen(sections@, next as nat),
            forall|g: int|
                0 <= g < groups@.len() ==> lists(#[trigger] groups@[g], sections@, next as nat),
        decreases sections@.len() - next,
    {
        let key = group_label(&sections[next]);
        let ghost before = groups@;
        proof {
            lemma_groups_distinct(sections@, next as nat);
            lemma_groups_cover(sections@, next as nat);
        }
        let mut at: usize = 0;
        while at < groups.len() && !text::same_text(groups[at].label.as_str(), key.as_str())
            invariant
                at <= groups@.len(),
                groups@ == before,
                forall|j: int| 0 <= j < at ==> (#[trigger] groups@[j]).label@ != key@,
            decreases groups@.len() - at,
        {
            at += 1;
        }
        if at < groups.len() {
            let mut group = groups.remove(at);
            list_section(&mut group, sections, next);
            let ghost grown = group;
            groups.insert(at, group);
            proof {
                assert(groups@ =~= before.update(at as int, grown));
                assert(group_labels(groups@) =~= group_labels(before));
                assert(group_labels(before)[at as int] == key@);
                assert forall|g: int| 0 <= g < groups@.len() implies lists(
                    #[trigger] groups@[g],
                    sections@,
                    (next + 1) as nat,
                ) by {
                    if g != at {
                        assert(lists(before[g], sections@, next as nat));
                        assert(group_labels(before)[g] != group_labels(before)[at as int]);
                    }
                }
            }
        } else {
            let mut members: Vec<usize> = Vec::new();
            members.push(next);
            let group = SectionGroup { label: key, members };
            proof {
                let labels = group_labels(before);
                assert(!labels.contains(group.label@)) by {
                    if labels.contains(group.label@) {
                        let k = choose|k: int| 0 <= k < labels.len() && labels[k] == group.label@;
                        assert(before[k].label@ == group.label@);
                    }
                }
                assert(group.members@[0] == next);
                assert forall|i: int|
                    0 <= i < next + 1 && group_of(#[trigger] sections@[i])
                        == group.label@ implies group.members@.contains(i as usize) by {
                    if i < next {
                        assert(labels.contains(group_of(sections@[i])));
                    }
                }
                assert(lists(group, sections@, (next + 1) as nat));
            }
            let ghost added = group;
            groups.push(group);
            proof {
                assert(group_labels(groups@) =~= group_labels(before).push(added.label@));
                assert forall|g: int| 0 <= g < groups@.len() implies lists(
                    #[trigger] groups@[g],
                    sections@,
                    (next + 1) as nat,
                ) by {
                    if g < before.len() {
                        assert(lists(before[g], sections@, next as nat));
                        assert(before[g].label@ != added.label@);
                    }
                }
            }
        }
        next += 1;
    }
    groups
}

proof fn lemma_groups_distinct(sections: Seq<TableSection>, n: nat)
    ensures
        forall|i: int, j: int|
            0 <= i < j < groups_seen(sections, n).len() ==> (#[trigger] groups_seen(
                sections,
                n,
            )[i]) != (#[trigger] groups_seen(sections, n)[j]),
    decreases n,
{
    if n > 0 {
        lemma_groups_distinct(sections, (n - 1) as nat);
        let before = groups_seen(sections, (n - 1) as nat);
        let label = group_of(sections[n - 1]);
        if !before.contains(label) {
            assert forall|i: int, j: int| 0 <= i < j < before.push(label).len() implies (
            #[trigger] before.push(label)[i]) != (#[trigger] before.push(label)[j]) by {
                if j == before.len() {
                    assert(before.contains(before[i]));
                }
            }
        }
    }
}

proof fn lemma_groups_cover(sections: Seq<TableSection>, n: nat)
    requires
        n <= sections.len(),
    ensures
        forall|i: int|
            0 <= i < n ==> groups_seen(sections, n).contains(group_of(#[trigger] sections[i])),
    decreases n,
{
    if n > 0 {
        lemma_groups_cover(sections, (n - 1) as nat);
        let before = groups_seen(sections, (n - 1) as nat);
        let all = groups_seen(sections, n);
        let label = group_of(sections[n - 1]);
        assert forall|i: int| 0 <= i < n implies all.contains(group_of(#[trigger] sections[i])) by {
            if i < n - 1 {
                let k = choose|k: int| 0 <= k < before.len() && before[k] == group_of(sections[i]);
                assert(all[k] == group_of(sections[i]));
            } else if !before.contains(label) {
                assert(all[before.len() as int] == label);
            }
        }
    }
}

/// The groups of tables have different names, and each table is in one of them.
pub proof fn each_table_is_in_one_group(sections: Seq<TableSection>)
    ensures
        forall|i: int, j: int|
            0 <= i < j < groups_seen(sections, sections.len()).len() ==> (#[trigger] groups_seen(
                sections,
                sections.len(),
            )[i]) != (#[trigger] groups_seen(sections, sections.len())[j]),
        forall|i: int|
            0 <= i < sections.len() ==> groups_seen(sections, sections.len()).contains(
                group_of(#[trigger] sections[i]),
            ),
{
    lemma_groups_distinct(sections, sections.len());
    lemma_groups_cover(sections, sections.len());
}

/// What a node of the tree stands for.
#[derive(Debug, Clone, Copy, PartialEq, Eq, Structural)]
pub enum TreeNodeKind {
    Struct,
    Dictionary,
    List,
    Tuple,
    EnumVariant,
    Scalar,
}

/// A node of the tree.
#[derive(Debug)]
pub struct TreeNode {
    pub label: String,
    pub kind: TreeNodeKind,
    pub node_ref: StructuralPath,
    pub children: Vec<TreeNode>,
}

/// Whether the outline lists a node: a collection with something in it.
pub open spec fn outlined(node: TreeNode) -> bool {
    node.kind != TreeNodeKind::Scalar && node.children@.len() > 0
}

/// Whether the outline lists a node: a collection with something in it.
pub fn is_outline_container(node: &TreeNode) -> (r: bool)
    ensures
        r == outlined(*node),
{
    !matches!(node.kind, TreeNodeKind::Scalar) && node.children.len() > 0
}

/// How many of the first `n` nodes the outline lists.
pub open spec fn outlined_count(nodes: Seq<TreeNode>, n: nat) -> nat
    decreases n,
{
    if n == 0 {
        0
    } else {
        outlined_count(nodes, (n - 1) as nat) + (if outlined(nodes[n - 1]) {
            1nat
        } else {
            0
        })
    }
}

/// The row of a node in the outline: what it is called, and how many of its children
/// are listed, if any.
pub fn outline_label(node: &TreeNode) -> (r: String)
    ensures
        ({
            let count = outlined_count(node.children@, node.children@.len());
            r@ == (if count > 0 {
                node.label@ + "  ("@ + text::decimal(count) + ")"@
            } else {
                node.label@
            })
        }),
{
    let mut count: usize = 0;
    let mut i: usize = 0;
    while i < node.children.len()
        invariant
            i <= node.children@.len(),
            count <= i,
            count == outlined_count(node.children@, i as nat),
        decreases node.children@.len() - i,
    {
        if is_outline_container(&node.children[i]) {
            count += 1;
        }
        i += 1;
    }
    let mut r = node.label.clone();
    if count > 0 {
        r.push_str("  (");
        text::push_decimal(&mut r, count);
        r.push_str(")");
    }
    r
}

/// Whether a row of the outline is open at first: those of the first two levels.
pub fn opens_by_default(depth: usize) -> (r: bool)
    ensures
        r == (depth < 2),
{
    depth < 2
}

/// Whether a value can be shown as a table: whether it is a collection.
pub open spec fn collection(value: RonValue) -> bool {
    match value.shape {
        Shape::List { .. } => true,
        Shape::Dictionary { .. } => true,
        Shape::Struct { .. } => true,
        Shape::Tuple { .. } => true,
        Shape::EnumVariant { .. } => true,
        _ => false,
    }
}

/// Whether a selection can be shown as a table. `resolved` is the value that its path
/// leads to. A selection that combines a field can, if that is one of the `combinable`
/// fields of the value before.
pub fn selection_is_table_able(
    path: &StructuralPath,
    resolved: Option<&RonValue>,
    combinable: &Vec<String>,
) -> (r: bool)
    ensures
        r == (if path@.len() > 0 && path@.last() is CombinedChild {
            text::strings(combinable@).contains(path@.last()->CombinedChild_0)
        } else {
            resolved matches Some(v) && collection(*v)
        }),
{
    let n = path.steps.len();
    if n > 0 {
        assert(path@.last() == path.steps@[n - 1]@);
        if let PathStep::CombinedChild(field) = &path.steps[n - 1] {
            let ghost all = text::strings(combinable@);
            let mut i: usize = 0;
            while i < combinable.len()
                invariant
                    i <= combinable@.len(),
                    all == text::strings(combinable@),
                    path@.len() > 0,
                    path@.last() == Step::CombinedChild(field@),
                    forall|j: int| 0 <= j < i ==> (#[trigger] all[j]) != field@,
                decreases combinable@.len() - i,
            {
                if text::same_text(combinable[i].as_str(), field.as_str()) {
                    assert(all[i as int] == field@);
                    return true;
                }
                i += 1;
            }
            return false;
        }
    }
    match resolved {
        Some(v) => match &v.shape {
            Shape::List { .. } => true,
            Shape::Dictionary { .. } => true,
            Shape::Struct { .. } => true,
            Shape::Tuple { .. } => true,
            Shape::EnumVariant { .. } => true,
            _ => false,
        },
        None => false,
    }
}

/// What is shown: the selection if it can be shown as a table, and the root otherwise.
pub fn shown_selection(stored: Option<StructuralPath>, table_able: bool) -> (r: StructuralPath)
    ensures
        match stored {
            Some(p) if table_able => r@ == p@,
            _ => r@ == Seq::<Step>::empty(),
        },
{
    match stored {
        Some(p) => if table_able {
            p
        } else {
            StructuralPath::root()
        },
        None => StructuralPath::root(),
    }
}

/// The selection that a combination starts from, and the field that it combines.
pub fn split_combined(selected: &StructuralPath) -> (r: (StructuralPath, Option<String>))
    ensures
        if selected@.len() > 0 && selected@.last() is CombinedChild {
            r.0@ == selected@.drop_last() && (r.1 matches Some(field) && field@
                == selected@.last()->CombinedChild_0)
        } else {
            r.0@ == selected@ && r.1 is None
        },
{
    let n = selected.steps.len();
    if n > 0 {
        assert(selected@.last() == selected.steps@[n - 1]@);
        if let PathStep::CombinedChild(field) = &selected.steps[n - 1] {
            assert(selected@.take(n - 1) =~= selected@.drop_last());
            return (selected.prefix(n - 1), Some(field.clone()));
        }
    }
    assert(selected@.take(n as int) =~= selected@);
    (selected.prefix(n), None)
}

/// The selection that combines a field of `parent`, or `parent` itself.
pub fn combine_target(parent: &StructuralPath, field: Option<String>) -> (r: StructuralPath)
    ensures
        r@ == (match field {
            Some(f) => parent@.push(Step::CombinedChild(f@)),
            None => parent@,
        }),
{
    match field {
        Some(f) => parent.child(PathStep::CombinedChild(f)),
        None => {
            assert(parent@.take(parent.steps@.len() as int) =~= parent@);
            parent.prefix(parent.steps.len())
        },
    }
}

/// What a combination leaves is what it was made from.
pub proof fn combining_is_undone_by_splitting(parent: Seq<Step>, field: Seq<char>)
    ensures
        parent.push(Step::CombinedChild(field)).drop_last() == parent,
        parent.push(Step::CombinedChild(field)).last() == Step::CombinedChild(field),
{
    assert(parent.push(Step::CombinedChild(field)).drop_last() =~= parent);
}

/// What the button to combine a field says.
pub fn combine_hint(field: &str, rows: usize) -> (r: String)
    ensures
        r@ == "Flatten "@ + field@ + " across all entries into one table ("@ + text::decimal(
            rows as nat,
        ) + " rows)"@,
{
    let mut r = "Flatten ".to_owned();
    r.push_str(field);
    r.push_str(" across all entries into one table (");
    text::push_decimal(&mut r, rows);
    r.push_str(" rows)");
    r
}

/// The columns to group by, from the two choices of the user.
pub open spec fn grouped_by(first: Option<usize>, second: Option<usize>) -> Seq<usize> {
    match (first, second) {
        (Some(a), Some(b)) => if a == b {
            seq![a]
        } else {
            seq![a, b]
        },
        (Some(a), None) => seq![a],
        (None, Some(b)) => seq![b],
        (None, None) => Seq::empty(),
    }
}

/// The columns to group by, from the two choices of the user. The same column twice
/// counts once.
pub fn group_by_columns(first: Option<usize>, second: Option<usize>) -> (r: Vec<usize>)
    ensures
        r@ == grouped_by(first, second),
{
    let mut r: Vec<usize> = Vec::new();
    match (first, second) {
        (Some(a), Some(b)) => {
            r.push(a);
            if a != b {
                r.push(b);
            }
        },
        (Some(a), None) => r.push(a),
        (None, Some(b)) => r.push(b),
        (None, None) => {},
    }
    assert(r@ =~= (match (first, second) {
        (Some(a), Some(b)) => if a == b {
            seq![a]
        } else {
            seq![a, b]
        },
        (Some(a), None) => seq![a],
        (None, Some(b)) => seq![b],
        (None, None) => Seq::empty(),
    }));
    r
}

/// Whether a column is shown: none chosen means all.
pub open spec fn shown(show: Seq<usize>, column: usize) -> bool {
    show.len() == 0 || show.contains(column)
}

/// The columns that are chosen out of `count`, where none means all.
pub open spec fn chosen(show: Seq<usize>, count: usize) -> Seq<usize> {
    if show.len() == 0 {
        Seq::new(count as nat, |i: int| i as usize)
    } else {
        show
    }
}

/// The first place of a column, or the number of columns.
pub open spec fn place_of(show: Seq<usize>, column: usize, from: int) -> int
    decreases show.len() - from,
{
    if from >= show.len() || show[from] == column {
        from
    } else {
        place_of(show, column, from + 1)
    }
}

/// The chosen columns after a click on one of `count`: it goes if it was chosen and
/// comes last if it was not.
pub open spec fn toggled(show: Seq<usize>, count: usize, column: usize) -> Seq<usize> {
    let all = chosen(show, count);
    let at = place_of(all, column, 0);
    if at < all.len() {
        all.remove(at)
    } else {
        all.push(column)
    }
}

/// Whether a column is shown: none chosen means all.
pub fn is_column_shown(show: &Vec<usize>, column: usize) -> (r: bool)
    ensures
        r == shown(show@, column),
{
    if show.len() == 0 {
        return true;
    }
    let mut i: usize = 0;
    while i < show.len()
        invariant
            i <= show@.len(),
            forall|j: int| 0 <= j < i ==> (#[trigger] show@[j]) != column,
        decreases show@.len() - i,
    {
        if show[i] == column {
            assert(show@[i as int] == column);
            return true;
        }
        i += 1;
    }
    false
}

/// The chosen columns after a click on one of `count`.
pub fn toggle_column(show: Vec<usize>, count: usize, column: usize) -> (r: Vec<usize>)
    ensures
        r@ == toggled(show@, count, column),
{
    let mut all = show;
    if all.len() == 0 {
        let mut i: usize = 0;
        while i < count
            invariant
                i <= count,
                all@ == Seq::new(i as nat, |k: int| k as usize),
            decreases count - i,
        {
            all.push(i);
            i += 1;
            assert(all@ =~= Seq::new(i as nat, |k: int| k as usize));
        }
    }
    assert(all@ =~= chosen(show@, count));
    let mut at: usize = 0;
    while at < all.len() && all[at] != column
        invariant
            at <= all@.len(),
            place_of(all@, column, at as int) == place_of(all@, column, 0),
        decreases all@.len() - at,
    {
        at += 1;
    }
    if at < all.len() {
        all.remove(at);
    } else {
        all.push(column);
    }
    all
}

/// A click on a column that was chosen hides it, if others stay, where each is chosen
/// at most once.
pub proof fn hiding_hides(show: Seq<usize>, count: usize, column: usize)
    requires
        shown(show, column),
        show.len() == 0 ==> column < count,
        chosen(show, count).len() > 1,
        forall|i: int, j: int|
            0 <= i < j < show.len() ==> (#[trigger] show[i]) != (#[trigger] show[j]),
    ensures
        !shown(toggled(show, count, column), column),
{
    let all = chosen(show, count);
    let k = if show.len() == 0 {
        column as int
    } else {
        choose|k: int| 0 <= k < show.len() && show[k] == column
    };
    assert(all[k] == column);
    lemma_place(all, column, 0, k);
    let at = place_of(all, column, 0);
    let after = all.remove(at);
    assert forall|i: int| 0 <= i < after.len() implies (#[trigger] after[i]) != column by {
        let i0 = if i < at {
            i
        } else {
            i + 1
        };
        assert(after[i] == all[i0]);
        assert(i0 != at);
        if show.len() > 0 && all[i0] == column {
            if i0 < at {
                assert(show[i0] != show[at]);
            } else {
                assert(show[at] != show[i0]);
            }
        }
    }
}

proof fn lemma_place(all: Seq<usize>, column: usize, from: int, k: int)
    requires
        0 <= from <= k < all.len(),
        all[k] == column,
    ensures
        from <= place_of(all, column, from) <= k,
        all[place_of(all, column, from)] == column,
    decreases k - from,
{
    if all[from] != column {
        lemma_place(all, column, from + 1, k);
    }
}

/// The tables that were looked at: the current one, those before it and, after going
/// back, those to go forward to.
#[derive(Debug)]
pub struct TableNavigation {
    /// The current table; none stands for the root.
    pub selected: Option<StructuralPath>,
    pub back: Vec<Option<StructuralPath>>,
    pub forward: Vec<Option<StructuralPath>>,
}

impl TableNavigation {
    /// Whether `after` is the state behind going to a table.
    pub open spec fn goes_to(self, path: StructuralPath, after: Self) -> bool {
        &&& after.selected == Some(path)
        &&& after.back@ == self.back@.push(self.selected)
        &&& after.forward@.len() == 0
    }

    /// Whether `after` is the state behind going back one table, if there is one.
    pub open spec fn goes_back(self, after: Self) -> bool {
        if self.back@.len() > 0 {
            &&& after.selected == self.back@.last()
            &&& after.back@ == self.back@.drop_last()
            &&& after.forward@ == self.forward@.push(self.selected)
        } else {
            after == self
        }
    }

    /// Whether `after` is the state behind going forward one table, if there is one.
    pub open spec fn goes_forward(self, after: Self) -> bool {
        if self.forward@.len() > 0 {
            &&& after.selected == self.forward@.last()
            &&& after.forward@ == self.forward@.drop_last()
            &&& after.back@ == self.back@.push(self.selected)
        } else {
            after == self
        }
    }

    /// Whether `after` is the state behind going back to the last table that is `able`
    /// to be shown.
    pub open spec fn goes_back_past(self, able: Seq<bool>, after: Self) -> bool {
        let at = last_able(able);
        if self.back@.len() == 0 {
            after == self
        } else {
            &&& after.selected == self.back@[at]
            &&& after.back@ == self.back@.take(at)
            &&& after.forward@ == self.forward@.push(self.selected) + self.back@.skip(
                at + 1,
            ).reverse()
        }
    }

    /// Whether `after` is the state behind going forward to the next table that is
    /// `able` to be shown.
    pub open spec fn goes_forward_past(self, able: Seq<bool>, after: Self) -> bool {
        let at = last_able(able);
        if self.forward@.len() == 0 {
            after == self
        } else {
            &&& after.selected == self.forward@[at]
            &&& after.forward@ == self.forward@.take(at)
            &&& after.back@ == self.back@.push(self.selected) + self.forward@.skip(
                at + 1,
            ).reverse()
        }
    }

    /// Goes to a table.
    pub fn navigate_table_section(&mut self, path: StructuralPath)
        ensures
            old(self).goes_to(path, *final(self)),
    {
        let mut slot = Some(path);
        std::mem::swap(&mut slot, &mut self.selected);
        self.back.push(slot);
        self.forward = Vec::new();
    }

    /// Goes back one table, if there is one.
    pub fn table_go_back(&mut self)
        ensures
            old(self).goes_back(*final(self)),
    {
        if self.back.len() == 0 {
            return ;
        }
        if let Some(previous) = self.back.pop() {
            let mut slot = previous;
            std::mem::swap(&mut slot, &mut self.selected);
            self.forward.push(slot);
        }
    }

    /// Goes forward one table, if there is one.
    pub fn table_go_forward(&mut self)
        ensures
            old(self).goes_forward(*final(self)),
    {
        if self.forward.len() == 0 {
            return ;
        }
        if let Some(next) = self.forward.pop() {
            let mut slot = next;
            std::mem::swap(&mut slot, &mut self.selected);
            self.back.push(slot);
        }
    }

    /// Goes back to the last table that is `able` to be shown, or as far as there are
    /// any. `able` says it of each table in `back`.
    pub fn table_go_back_resolvable(&mut self, able: &Vec<bool>)
        requires
            able@.len() == old(self).back@.len(),
        ensures
            old(self).goes_back_past(able@, *final(self)),
    {
        let ghost start = *self;
        let n = self.back.len();
        if n == 0 {
            return ;
        }
        self.table_go_back();
        let mut at: usize = n - 1;
        assert(self.back@ =~= start.back@.take(at as int));
        assert(self.forward@ =~= start.forward@.push(start.selected) + start.back@.skip(
            at + 1,
        ).reverse());
        assert(able@.take(n as int) =~= able@);
        while at > 0 && !able[at]
            invariant
                at < n,
                n == start.back@.len(),
                able@.len() == n,
                self.selected == start.back@[at as int],
                self.back@ == start.back@.take(at as int),
                self.forward@ == start.forward@.push(start.selected) + start.back@.skip(
                    at + 1,
                ).reverse(),
                last_able(able@) == last_able(able@.take(at + 1)),
            decreases at,
        {
            assert(able@.take(at + 1).drop_last() =~= able@.take(at as int));
            self.table_go_back();
            at -= 1;
            assert(self.back@ =~= start.back@.take(at as int));
            assert(self.forward@ =~= start.forward@.push(start.selected) + start.back@.skip(
                at + 1,
            ).reverse());
        }
        assert(able@.take(at + 1).last() == able@[at as int]);
    }

    /// Goes forward to the next table that is `able` to be shown, or as far as there
    /// are any. `able` says it of each table in `forward`.
    pub fn table_go_forward_resolvable(&mut self, able: &Vec<bool>)
        requires
            able@.len() == old(self).forward@.len(),
        ensures
            old(self).goes_forward_past(able@, *final(self)),
    {
        let ghost start = *self;
        let n = self.forward.len();
        if n == 0 {
            return ;
        }
        self.table_go_forward();
        let mut at: usize = n - 1;
        assert(self.forward@ =~= start.forward@.take(at as int));
        assert(self.back@ =~= start.back@.push(start.selected) + start.forward@.skip(
            at + 1,
        ).reverse());
        assert(able@.take(n as int) =~= able@);
        while at > 0 && !able[at]
            invariant
                at < n,
                n == start.forward@.len(),
                able@.len() == n,
                self.selected == start.forward@[at as int],
                self.forward@ == start.forward@.take(at as int),
                self.back@ == start.back@.push(start.selected) + start.forward@.skip(
                    at + 1,
                ).reverse(),
                last_able(able@) == last_able(able@.take(at + 1)),
            decreases at,
        {
            assert(able@.take(at + 1).drop_last() =~= able@.take(at as int));
            self.table_go_forward();
            at -= 1;
            assert(self.forward@ =~= start.forward@.take(at as int));
            assert(self.back@ =~= start.back@.push(start.selected) + start.forward@.skip(
                at + 1,
            ).reverse());
        }
        assert(able@.take(at + 1).last() == able@[at as int]);
    }
}

/// The last place that is `able`, or the first one.
pub open spec fn last_able(able: Seq<bool>) -> int
    decreases able.len(),
{
    if able.len() <= 1 || able.last() {
        able.len() - 1
    } else {
        last_able(able.drop_last())
    }
}

/// Whether a click on a part of the path above a table goes anywhere: not on parts that
/// are no table, and not on the table itself.
pub fn breadcrumb_is_clickable(
    clickable: bool,
    path: &StructuralPath,
    selected: &StructuralPath,
) -> (r: bool)
    ensures
        r == (clickable && path@ != selected@),
{
    clickable && !path.same(selected)
}

/// What a severity is called.
pub open spec fn severity_name(severity: Severity) -> Seq<char> {
    match severity {
        Severity::Error => "error"@,
        Severity::Warning => "warning"@,
    }
}

/// A row of the diagnostics panel.
pub fn diagnostics_row(d: &DiagnosticView) -> (r: String)
    requires
        d.line_col.0.0 < usize::MAX,
        d.line_col.0.1 < usize::MAX,
    ensures
        r@ == severity_name(d.severity) + " "@ + d.code@ + " ["@ + text::decimal(
            (d.line_col.0.0 + 1) as nat,
        ) + ":"@ + text::decimal((d.line_col.0.1 + 1) as nat) + "] "@ + d.message@,
{
    let (line, col) = d.line_col.0;
    let mut r = match d.severity {
        Severity::Error => "error".to_owned(),
        Severity::Warning => "warning".to_owned(),
    };
    r.push_str(" ");
    r.push_str(d.code.as_str());
    r.push_str(" [");
    text::push_decimal(&mut r, line + 1);
    r.push_str(":");
    text::push_decimal(&mut r, col + 1);
    r.push_str("] ");
    r.push_str(d.message.as_str());
    r
}

/// A click on a column shows it if it was hidden, and leaves the others as they are, if
/// any stays.
pub proof fn clicks_touch_one_column(show: Seq<usize>, count: usize, column: usize, other: usize)
    requires
        column != other,
        show.len() == 0 ==> column < count && other < count,
    ensures
        !shown(show, column) ==> shown(toggled(show, count, column), column),
        toggled(show, count, column).len() > 0 ==> shown(toggled(show, count, column), other)
            == shown(show, other),
{
    let all = chosen(show, count);
    let at = place_of(all, column, 0);
    let after = toggled(show, count, column);
    assert(shown(show, other) == all.contains(other)) by {
        if show.len() == 0 {
            assert(all[other as int] == other);
        }
    }
    lemma_place_within(all, column, 0);
    if at < all.len() {
        if !shown(show, column) {
            assert(show[at] == column);
        }
        if all.contains(other) {
            let k = all.index_of(other);
            assert(all[k] == other);
            if k < at {
                assert(after[k] == other);
            } else {
                assert(after[k - 1] == other);
            }
        }
        if after.contains(other) {
            let k = after.index_of(other);
            assert(after[k] == other);
            if k < at {
                assert(all[k] == other);
            } else {
                assert(all[k + 1] == other);
            }
        }
    } else {
        assert(after[all.len() as int] == column);
        if all.contains(other) {
            let k = all.index_of(other);
            assert(after[k] == other);
        }
        if after.contains(other) {
            let k = after.index_of(other);
            assert(after[k] == other);
            assert(all[k] == other);
        }
    }
}

proof fn lemma_place_within(all: Seq<usize>, column: usize, from: int)
    requires
        0 <= from <= all.len(),
    ensures
        from <= place_of(all, column, from) <= all.len(),
        place_of(all, column, from) < all.len() ==> all[place_of(all, column, from)] == column,
    decreases all.len() - from,
{
    if from < all.len() && all[from] != column {
        lemma_place_within(all, column, from + 1);
    }
}

/// The place that is gone to is able, or the first one; none behind it is able.
pub proof fn nothing_able_is_passed_over(able: Seq<bool>)
    requires
        able.len() > 0,
    ensures
        0 <= last_able(able) < able.len(),
        able[last_able(able)] || last_able(able) == 0,
        forall|i: int| last_able(able) < i < able.len() ==> !#[trigger] able[i],
    decreases able.len(),
{
    if able.len() > 1 && !able.last() {
        let less = able.drop_last();
        nothing_able_is_passed_over(less);
        assert forall|i: int| last_able(able) < i < able.len() implies !#[trigger] able[i] by {
            if i < less.len() {
                assert(!less[i]);
            }
        }
    }
}

/// The columns to group by are those that were chosen, each once, the first choice first.
pub proof fn chosen_columns_are_grouped_by(
    first: Option<usize>,
    second: Option<usize>,
    column: usize,
)
    ensures
        grouped_by(first, second).contains(column) == (first == Some(column) || second == Some(
            column,
        )),
        first matches Some(a) ==> grouped_by(first, second)[0] == a,
        forall|i: int, j: int|
            0 <= i < j < grouped_by(first, second).len() ==> (#[trigger] grouped_by(
                first,
                second,
            )[i]) != (#[trigger] grouped_by(first, second)[j]),
{
    let all = grouped_by(first, second);
    if first == Some(column) {
        assert(all[0] == column);
    } else if second == Some(column) {
        assert(all[all.len() - 1] == column);
    }
}

/// All tables of a history in the order in which they were looked at.
pub open spec fn trail(n: TableNavigation) -> Seq<Option<StructuralPath>> {
    n.back@.push(n.selected) + n.forward@.reverse()
}

/// Going back and forward moves along the tables that were looked at: none of them is
/// lost, and their order stays.
pub proof fn moving_keeps_the_trail(
    before: TableNavigation,
    able: Seq<bool>,
    after: TableNavigation,
)
    requires
        before.goes_back(after) || before.goes_forward(after) || (before.goes_back_past(able, after)
            && able.len() == before.back@.len()) || (before.goes_forward_past(able, after)
            && able.len() == before.forward@.len()),
    ensures
        trail(after) == trail(before),
{
    if able.len() > 0 {
        nothing_able_is_passed_over(able);
    }
    assert(trail(after) =~= trail(before));
}

/// Going forward undoes going back, and going back undoes going to a table.
pub proof fn moves_are_undone(
    path: StructuralPath,
    a: TableNavigation,
    b: TableNavigation,
    c: TableNavigation,
)
    requires
        (a.goes_back(b) && b.goes_forward(c) && a.back@.len() > 0) || (a.goes_forward(b)
            && b.goes_back(c) && a.forward@.len() > 0) || (a.goes_to(path, b) && b.goes_back(c)),
    ensures
        c.selected == a.selected,
        c.back@ == a.back@,
        a.goes_to(path, b) || c.forward@ == a.forward@,
{
    assert(c.back@ =~= a.back@);
    if !a.goes_to(path, b) {
        assert(c.forward@ =~= a.forward@);
    }
}

/// Going back past tables that cannot be shown leads to one that can, or to the first.
pub proof fn moves_lead_to_what_can_be_shown(
    before: TableNavigation,
    able: Seq<bool>,
    after: TableNavigation,
    i: int,
)
    requires
        before.goes_back_past(able, after),
        able.len() == before.back@.len(),
        0 <= i < able.len(),
        able[i],
    ensures
        i <= after.back@.len() < able.len(),
        able[after.back@.len() as int],
        after.selected == before.back@[after.back@.len() as int],
{
    nothing_able_is_passed_over(able);
    if last_able(able) < i {
        assert(!able[i]);
    }
}

/// A group lists its larger tables first, and those of one size as they are in the
/// document.
pub proof fn larger_tables_are_listed_first(
    group: SectionGroup,
    sections: Seq<TableSection>,
    n: nat,
    a: int,
    b: int,
)
    requires
        lists(group, sections, n),
        0 <= a < b < group.members@.len(),
    ensures
        sections[group.members@[a] as int].rows >= sections[group.members@[b] as int].rows,
        sections[group.members@[a] as int].rows == sections[group.members@[b] as int].rows
            ==> group.members@[a] < group.members@[b],
        group_of(sections[group.members@[a] as int]) == group.label@,
{
    assert(listed_before(sections, group.members@[a] as int, group.members@[b] as int));
}

/// Groups come in the order of their first tables: more tables add groups at the end, if
/// any, and every group has a table.
pub proof fn groups_come_where_their_first_table_is(
    sections: Seq<TableSection>,
    n: nat,
    more: nat,
    i: int,
) -> (table: int)
    requires
        n <= more <= sections.len(),
        0 <= i < groups_seen(sections, n).len(),
    ensures
        groups_seen(sections, n).len() <= groups_seen(sections, more).len(),
        groups_seen(sections, more)[i] == groups_seen(sections, n)[i],
        0 <= table < n,
        group_of(sections[table]) == groups_seen(sections, n)[i],
    decreases more,
{
    if n < more {
        groups_come_where_their_first_table_is(sections, n, (more - 1) as nat, i)
    } else {
        let before = groups_seen(sections, (n - 1) as nat);
        if i < before.len() {
            groups_come_where_their_first_table_is(sections, (n - 1) as nat, (n - 1) as nat, i)
        } else {
            n - 1
        }
    }
}

} // verus!
