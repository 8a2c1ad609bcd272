//! The knowledge-point tree (volume > chapter > section > point), the index
//! of its ids, and the structural checks run while the tree is loaded.
use vstd::prelude::*;
use crate::text::{chars_of, concat2, concat3, has_prefix, starts_with, str_eq};

verus! {

/// A leaf knowledge point.
pub struct Point {
    pub id: String,
    pub name: String,
}

/// A section with its points.
pub struct Section {
    pub id: String,
    pub name: String,
    pub points: Vec<Point>,
}

/// A chapter with its sections.
pub struct Chapter {
    pub id: String,
    pub name: String,
    pub sections: Vec<Section>,
}

/// A volume (one school term) with its chapters.
pub struct Volume {
    pub id: String,
    pub grade: String,
    pub volume: String,
    pub chapters: Vec<Chapter>,
}

/// The version line of the tree file.
pub struct Meta {
    pub version: String,
    pub status: String,
}

/// The whole knowledge-point tree as read from its file.
pub struct KpTree {
    pub meta: Meta,
    pub volumes: Vec<Volume>,
}

/// The four levels of the tree.
#[derive(Clone, Copy, PartialEq, Eq, Structural, Debug)]
pub enum Level {
    Volume,
    Chapter,
    Section,
    Point,
}

/// The one-character name of a level.
pub open spec fn level_label(l: Level) -> Seq<char> {
    match l {
        Level::Volume => "册"@,
        Level::Chapter => "章"@,
        Level::Section => "节"@,
        Level::Point => "点"@,
    }
}

/// The level right above `l` (a volume has none; it is its own answer).
pub open spec fn parent_level(l: Level) -> Level {
    match l {
        Level::Volume => Level::Volume,
        Level::Chapter => Level::Volume,
        Level::Section => Level::Chapter,
        Level::Point => Level::Section,
    }
}

impl Level {
    pub fn label(&self) -> (r: &'static str)
        ensures
            r@ == level_label(*self),
    {
        match self {
            Level::Volume => "册",
            Level::Chapter => "章",
            Level::Section => "节",
            Level::Point => "点",
        }
    }

    pub fn parent(&self) -> (r: Level)
        ensures
            r == parent_level(*self),
    {
        match self {
            Level::Volume => Level::Volume,
            Level::Chapter => Level::Volume,
            Level::Section => Level::Chapter,
            Level::Point => Level::Section,
        }
    }
}

/// What the index knows of one id.
pub struct KpNode {
    pub name: String,
    pub path: String,
    pub level: Level,
}

pub struct NodeView {
    pub name: Seq<char>,
    pub path: Seq<char>,
    pub level: Level,
}

impl View for KpNode {
    type V = NodeView;

    open spec fn view(&self) -> NodeView {
        NodeView { name: self.name@, path: self.path@, level: self.level }
    }
}

/// A leaf point with its full path, as listed to the model.
pub struct PointRef {
    pub id: String,
    pub name: String,
    pub path: String,
}

pub struct PointView {
    pub id: Seq<char>,
    pub name: Seq<char>,
    pub path: Seq<char>,
}

impl View for PointRef {
    type V = PointView;

    open spec fn view(&self) -> PointView {
        PointView { id: self.id@, name: self.name@, path: self.path@ }
    }
}

/// A structural problem found while loading the tree.
pub enum Issue {
    /// An id occurs more than once.
    DuplicateId { id: String },
    /// An id that does not extend its parent's id by a dot.
    PrefixMismatch { level: Level, child: String, parent: String },
}

pub enum IssueView {
    DuplicateId { id: Seq<char> },
    PrefixMismatch { level: Level, child: Seq<char>, parent: Seq<char> },
}

impl View for Issue {
    type V = IssueView;

    open spec fn view(&self) -> IssueView {
        match self {
            Issue::DuplicateId { id } => IssueView::DuplicateId { id: id@ },
            Issue::PrefixMismatch { level, child, parent } => IssueView::PrefixMismatch {
                level: *level,
                child: child@,
                parent: parent@,
            },
        }
    }
}

/// The text with which an issue is reported.
pub open spec fn issue_message(i: IssueView) -> Seq<char> {
    match i {
        IssueView::DuplicateId { id } => "重复 id："@ + id,
        IssueView::PrefixMismatch { level, child, parent } => level_label(level) + " id 前缀不符："@
            + child + " 不在"@ + level_label(parent_level(level)) + " "@ + parent + " 下"@,
    }
}

impl Issue {
    pub fn message(&self) -> (r: String)
        ensures
            r@ == issue_message(self@),
    {
        match self {
            Issue::DuplicateId { id } => concat2("重复 id：", id.as_str()),
            Issue::PrefixMismatch { level, child, parent } => {
                let mut s = concat3(level.label(), " id 前缀不符：", child.as_str());
                s.append(" 不在");
                s.append(level.parent().label());
                s.append(" ");
                s.append(parent.as_str());
                s.append(" 下");
                s
            },
        }
    }
}

// ---------------------------------------------------------------------------
// The id index
// ---------------------------------------------------------------------------
struct IndexEntry {
    id: String,
    node: KpNode,
}

/// Map from knowledge-point id to what is known of it.
pub struct KpIndex {
    entries: Vec<IndexEntry>,
}

impl KpIndex {
    #[verifier::type_invariant]
    closed spec fn ids_unique(self) -> bool {
        forall|i: int, j: int|
            0 <= i < j < self.entries@.len() ==> self.entries@[i].id@ != self.entries@[j].id@
    }

    closed spec fn has_id_at(self, k: Seq<char>, i: int) -> bool {
        0 <= i < self.entries@.len() && self.entries@[i].id@ == k
    }

    closed spec fn holds(self, k: Seq<char>) -> bool {
        exists|i: int| self.has_id_at(k, i)
    }
}

impl View for KpIndex {
    type V = Map<Seq<char>, NodeView>;

    closed spec fn view(&self) -> Map<Seq<char>, NodeView> {
        Map::new(
            |k: Seq<char>| self.holds(k),
            |k: Seq<char>| self.entries@[choose|i: int| self.has_id_at(k, i)].node@,
        )
    }
}

impl KpIndex {
    proof fn lemma_at(self, i: int)
        requires
            self.ids_unique(),
            0 <= i < self.entries@.len(),
        ensures
            self@.contains_key(self.entries@[i].id@),
            self@[self.entries@[i].id@] == self.entries@[i].node@,
    {
        let k = self.entries@[i].id@;
        assert(self.has_id_at(k, i));
        let c = choose|c: int| self.has_id_at(k, c);
        assert(self.has_id_at(k, c));
        if c < i {
            assert(self.entries@[c].id@ != self.entries@[i].id@);
        }
        if i < c {
            assert(self.entries@[i].id@ != self.entries@[c].id@);
        }
    }

    /// An empty index.
    pub fn new() -> (r: KpIndex)
        ensures
            r@ == Map::<Seq<char>, NodeView>::empty(),
    {
        let r = KpIndex { entries: Vec::new() };
        assert(r@ =~= Map::<Seq<char>, NodeView>::empty());
        r
    }

    fn find(&self, id: &String) -> (r: Option<usize>)
        ensures
            match r {
                Some(i) => i < self.entries@.len() && self.entries@[i as int].id@ == id@,
                None => !self@.contains_key(id@),
            },
    {
        let mut i: usize = 0;
        while i < self.entries.len()
            invariant
                0 <= i <= self.entries@.len(),
                forall|j: int| 0 <= j < i ==> self.entries@[j].id@ != id@,
            decreases self.entries@.len() - i,
        {
            if self.entries[i].id == *id {
                return Some(i);
            }
            i = i + 1;
        }
        None
    }

    /// `HashMap::contains_key`.
    pub fn contains_key(&self, id: &str) -> (r: bool)
        ensures
            r == self@.contains_key(id@),
    {
        proof {
            use_type_invariant(self);
        }
        let key = String::from_str(id);
        match self.find(&key) {
            Some(i) => {
                proof {
                    self.lemma_at(i as int);
                }
                true
            },
            None => false,
        }
    }

    /// `HashMap::get`.
    pub fn get(&self, id: &str) -> (r: Option<&KpNode>)
        ensures
            match r {
                Some(n) => self@.contains_key(id@) && n@ == self@[id@],
                None => !self@.contains_key(id@),
            },
    {
        proof {
            use_type_invariant(self);
        }
        let key = String::from_str(id);
        match self.find(&key) {
            Some(i) => {
                proof {
                    self.lemma_at(i as int);
                }
                Some(&self.entries[i].node)
            },
            None => None,
        }
    }

    /// `HashMap::insert`: afterwards `id` maps to `node`; returns whether `id` was there before.
    pub fn insert(&mut self, id: String, node: KpNode) -> (had: bool)
        ensures
            final(self)@ == old(self)@.insert(id@, node@),
            had == old(self)@.contains_key(id@),
    {
        proof {
            use_type_invariant(&*self);
        }
        let ghost old_self = *self;
        let ghost k = id@;
        let ghost nv = node@;
        match self.find(&id) {
            Some(i) => {
                proof {
                    old_self.lemma_at(i as int);
                }
                let mut entries = Vec::new();
                std::mem::swap(&mut entries, &mut self.entries);
                entries[i] = IndexEntry { id, node };
                let ghost new_entries = entries@;
                assert forall|a: int, b: int| 0 <= a < b < new_entries.len() implies new_entries[a].id@
                    != new_entries[b].id@ by {
                    assert(old_self.entries@[a].id@ != old_self.entries@[b].id@);
                }
                self.entries = entries;
                proof {
                    let s = *self;
                    assert forall|x: Seq<char>| #[trigger]
                        s@.contains_key(x) == old_self@.insert(k, nv).contains_key(x) by {
                        if s@.contains_key(x) {
                            let j = choose|j: int| s.has_id_at(x, j);
                            assert(old_self.has_id_at(x, j));
                        }
                        if old_self@.contains_key(x) {
                            let j = choose|j: int| old_self.has_id_at(x, j);
                            assert(s.has_id_at(x, j));
                        }
                        if x == k {
                            assert(s.has_id_at(x, i as int));
                        }
                    }
                    assert forall|x: Seq<char>| #[trigger] s@.contains_key(x) implies s@[x]
                        == old_self@.insert(k, nv)[x] by {
                        let j = choose|j: int| s.has_id_at(x, j);
                        s.lemma_at(j);
                        if j != i {
                            old_self.lemma_at(j);
                        }
                    }
                    assert(s@ =~= old_self@.insert(k, nv));
                }
                true
            },
            None => {
                let mut entries = Vec::new();
                std::mem::swap(&mut entries, &mut self.entries);
                entries.push(IndexEntry { id, node });
                let ghost new_entries = entries@;
                let ghost n: int = old_self.entries@.len() as int;
                assert forall|a: int, b: int| 0 <= a < b < new_entries.len() implies new_entries[a].id@
                    != new_entries[b].id@ by {
                    if b < n {
                        assert(old_self.entries@[a].id@ != old_self.entries@[b].id@);
                    } else {
                        assert(old_self.has_id_at(new_entries[a].id@, a));
                    }
                }
                self.entries = entries;
                proof {
                    let s = *self;
                    assert forall|x: Seq<char>| #[trigger]
                        s@.contains_key(x) == old_self@.insert(k, nv).contains_key(x) by {
                        if s@.contains_key(x) {
                            let j = choose|j: int| s.has_id_at(x, j);
                            if j < n {
                                assert(old_self.has_id_at(x, j));
                            }
                        }
                        if old_self@.contains_key(x) {
                            let j = choose|j: int| old_self.has_id_at(x, j);
                            assert(s.has_id_at(x, j));
                        }
                        if x == k {
                            assert(s.has_id_at(x, n as int));
                        }
                    }
                    assert forall|x: Seq<char>| #[trigger] s@.contains_key(x) implies s@[x]
                        == old_self@.insert(k, nv)[x] by {
                        let j = choose|j: int| s.has_id_at(x, j);
                        s.lemma_at(j);
                        if j < n {
                            old_self.lemma_at(j);
                        }
                    }
                    assert(s@ =~= old_self@.insert(k, nv));
                }
                false
            },
        }
    }
}


impl KpIndex {
    /// Number of ids whose node is at `level`.
    pub fn count_level(&self, level: Level) -> (r: usize)
        ensures
            r == self@.dom().filter(|k: Seq<char>| self@[k].level == level).len(),
    {
        proof {
            use_type_invariant(self);
        }
        let mut n: usize = 0;
        let mut i: usize = 0;
        let ghost mut seen: Set<Seq<char>> = Set::empty();
        while i < self.entries.len()
            invariant
                self.ids_unique(),
                0 <= i <= self.entries@.len(),
                n <= i,
                seen.finite(),
                seen.len() == n,
                forall|k: Seq<char>|
                    seen.contains(k) <==> exists|j: int|
                        0 <= j < i && self.has_id_at(k, j) && self.entries@[j].node.level == level,
            decreases self.entries@.len() - i,
        {
            if self.entries[i].node.level == level {
                let ghost k = self.entries@[i as int].id@;
                proof {
                    if seen.contains(k) {
                        let j = choose|j: int|
                            0 <= j < i && self.has_id_at(k, j) && self.entries@[j].node.level == level;
                        assert(self.entries@[j].id@ != self.entries@[i as int].id@);
                    }
                    let old_seen = seen;
                    seen = seen.insert(k);
                    assert forall|x: Seq<char>|
                        seen.contains(x) <==> exists|j: int|
                            0 <= j < i + 1 && self.has_id_at(x, j) && self.entries@[j].node.level
                                == level by {
                        if x == k {
                            assert(self.has_id_at(x, i as int));
                        }
                        if old_seen.contains(x) {
                            let j = choose|j: int|
                                0 <= j < i && self.has_id_at(x, j) && self.entries@[j].node.level
                                    == level;
                            assert(0 <= j < i + 1);
                        }
                    }
                }
                n = n + 1;
            } else {
                proof {
                    assert forall|x: Seq<char>|
                        seen.contains(x) <==> exists|j: int|
                            0 <= j < i + 1 && self.has_id_at(x, j) && self.entries@[j].node.level
                                == level by {
                        if seen.contains(x) {
                            let j = choose|j: int|
                                0 <= j < i && self.has_id_at(x, j) && self.entries@[j].node.level
                                    == level;
                            assert(0 <= j < i + 1);
                        }
                    }
                }
            }
            i = i + 1;
        }
        proof {
            let target = self@.dom().filter(|k: Seq<char>| self@[k].level == level);
            assert forall|x: Seq<char>| seen.contains(x) <==> target.contains(x) by {
                if seen.contains(x) {
                    let j = choose|j: int|
                        0 <= j < i && self.has_id_at(x, j) && self.entries@[j].node.level == level;
                    self.lemma_at(j);
                }
                if target.contains(x) {
                    let j = choose|j: int| self.has_id_at(x, j);
                    self.lemma_at(j);
                }
            }
            assert(seen =~= target);
        }
        n
    }
}

// ---------------------------------------------------------------------------
// Short names, id nesting and paths
// ---------------------------------------------------------------------------
pub open spec fn grade_short(g: Seq<char>) -> Seq<char> {
    if g == "七年级"@ {
        "七"@
    } else if g == "八年级"@ {
        "八"@
    } else if g == "九年级"@ {
        "九"@
    } else {
        g
    }
}

pub open spec fn term_short(v: Seq<char>) -> Seq<char> {
    if v == "上册"@ {
        "上"@
    } else if v == "下册"@ {
        "下"@
    } else {
        v
    }
}

/// Short name of a volume: the grade's numeral and the term's first character,
/// each left as it is where it is not one of the known names.
pub open spec fn volume_short_name(grade: Seq<char>, volume: Seq<char>) -> Seq<char> {
    grade_short(grade) + term_short(volume)
}

pub fn vol_short(grade: &str, volume: &str) -> (r: String)
    ensures
        r@ == volume_short_name(grade@, volume@),
{
    let g: &str = if str_eq(grade, "七年级") {
        "七"
    } else if str_eq(grade, "八年级") {
        "八"
    } else if str_eq(grade, "九年级") {
        "九"
    } else {
        grade
    };
    let v: &str = if str_eq(volume, "上册") {
        "上"
    } else if str_eq(volume, "下册") {
        "下"
    } else {
        volume
    };
    concat2(g, v)
}

/// `child` is `parent` followed by a dot and more.
pub open spec fn id_is_child(child: Seq<char>, parent: Seq<char>) -> bool {
    has_prefix(child, parent) && child.len() > parent.len() && child[parent.len() as int] == '.'
}

pub fn is_child(child_id: &str, parent_id: &str) -> (r: bool)
    ensures
        r == id_is_child(child_id@, parent_id@),
{
    if !starts_with(child_id, parent_id) {
        return false;
    }
    let c = chars_of(child_id);
    let p = chars_of(parent_id);
    p.len() < c.len() && c[p.len()] == '.'
}

/// A path one level down: `a > b`.
pub open spec fn join_path(a: Seq<char>, b: Seq<char>) -> Seq<char> {
    a + " > "@ + b
}

pub fn join_path_exec(a: &str, b: &str) -> (r: String)
    ensures
        r@ == join_path(a@, b@),
{
    concat3(a, " > ", b)
}

// ---------------------------------------------------------------------------
// The tree read as a sequence of registrations
// ---------------------------------------------------------------------------
/// One node of the tree, in the order the loader visits it.
pub struct EntryView {
    pub id: Seq<char>,
    pub node: NodeView,
    /// The id of the node above it; none for a volume.
    pub parent: Option<Seq<char>>,
}

pub open spec fn point_entry(spath: Seq<char>, sid: Seq<char>, p: Point) -> EntryView {
    EntryView {
        id: p.id@,
        node: NodeView { name: p.name@, path: join_path(spath, p.name@), level: Level::Point },
        parent: Some(sid),
    }
}

pub open spec fn points_entries(spath: Seq<char>, sid: Seq<char>, pts: Seq<Point>) -> Seq<EntryView>
    decreases pts.len(),
{
    if pts.len() == 0 {
        seq![]
    } else {
        points_entries(spath, sid, pts.drop_last()).push(point_entry(spath, sid, pts.last()))
    }
}

pub open spec fn section_entries(cpath: Seq<char>, cid: Seq<char>, s: Section) -> Seq<EntryView> {
    let spath = join_path(cpath, s.name@);
    seq![
        EntryView {
            id: s.id@,
            node: NodeView { name: s.name@, path: spath, level: Level::Section },
            parent: Some(cid),
        },
    ] + points_entries(spath, s.id@, s.points@)
}

pub open spec fn sections_entries(cpath: Seq<char>, cid: Seq<char>, ss: Seq<Section>) -> Seq<
    EntryView,
>
    decreases ss.len(),
{
    if ss.len() == 0 {
        seq![]
    } else {
        sections_entries(cpath, cid, ss.drop_last()) + section_entries(cpath, cid, ss.last())
    }
}

pub open spec fn chapter_entries(vshort: Seq<char>, vid: Seq<char>, c: Chapter) -> Seq<EntryView> {
    let cpath = join_path(vshort, c.name@);
    seq![
        EntryView {
            id: c.id@,
            node: NodeView { name: c.name@, path: cpath, level: Level::Chapter },
            parent: Some(vid),
        },
    ] + sections_entries(cpath, c.id@, c.sections@)
}

pub open spec fn chapters_entries(vshort: Seq<char>, vid: Seq<char>, cs: Seq<Chapter>) -> Seq<
    EntryView,
>
    decreases cs.len(),
{
    if cs.len() == 0 {
        seq![]
    } else {
        chapters_entries(vshort, vid, cs.drop_last()) + chapter_entries(vshort, vid, cs.last())
    }
}

pub open spec fn volume_entries(v: Volume) -> Seq<EntryView> {
    let vshort = volume_short_name(v.grade@, v.volume@);
    seq![
        EntryView {
            id: v.id@,
            node: NodeView { name: vshort, path: vshort, level: Level::Volume },
            parent: None,
        },
    ] + chapters_entries(vshort, v.id@, v.chapters@)
}

pub open spec fn volumes_entries(vs: Seq<Volume>) -> Seq<EntryView>
    decreases vs.len(),
{
    if vs.len() == 0 {
        seq![]
    } else {
        volumes_entries(vs.drop_last()) + volume_entries(vs.last())
    }
}

/// Every node of the tree: each volume, then its chapters, each chapter
/// followed by its sections, each section followed by its points.
pub open spec fn tree_entries(t: KpTree) -> Seq<EntryView> {
    volumes_entries(t.volumes@)
}

// ---------------------------------------------------------------------------
// Loading: registering the entries one by one
// ---------------------------------------------------------------------------
/// What loading has produced so far.
#[verifier::ext_equal]
pub struct TreeState {
    pub index: Map<Seq<char>, NodeView>,
    pub points: Seq<PointView>,
    pub issues: Seq<IssueView>,
}

pub open spec fn empty_state() -> TreeState {
    TreeState { index: Map::empty(), points: seq![], issues: seq![] }
}

/// The issues that registering `e` in state `st` reports: a repeated id, then
/// an id that does not extend its parent's.
pub open spec fn entry_issues(st: TreeState, e: EntryView) -> Seq<IssueView> {
    (if st.index.contains_key(e.id) {
        seq![IssueView::DuplicateId { id: e.id }]
    } else {
        seq![]
    }) + match e.parent {
        Some(p) => if id_is_child(e.id, p) {
            seq![]
        } else {
            seq![IssueView::PrefixMismatch { level: e.node.level, child: e.id, parent: p }]
        },
        None => seq![],
    }
}

/// Registering one entry: the id now maps to its node (a later one replaces
/// an earlier), points are listed in order, and issues are appended.
pub open spec fn step(st: TreeState, e: EntryView) -> TreeState {
    TreeState {
        index: st.index.insert(e.id, e.node),
        points: if e.node.level == Level::Point {
            st.points.push(PointView { id: e.id, name: e.node.name, path: e.node.path })
        } else {
            st.points
        },
        issues: st.issues + entry_issues(st, e),
    }
}

pub open spec fn run(st: TreeState, es: Seq<EntryView>) -> TreeState
    decreases es.len(),
{
    if es.len() == 0 {
        st
    } else {
        step(run(st, es.drop_last()), es.last())
    }
}

pub proof fn lemma_run_append(st: TreeState, a: Seq<EntryView>, b: Seq<EntryView>)
    ensures
        run(st, a + b) == run(run(st, a), b),
    decreases b.len(),
{
    if b.len() == 0 {
        assert(a + b =~= a);
    } else {
        lemma_run_append(st, a, b.drop_last());
        assert((a + b).drop_last() =~= a + b.drop_last());
    }
}

pub proof fn lemma_run_one(st: TreeState, e: EntryView)
    ensures
        run(st, seq![e]) == step(st, e),
{
    assert(seq![e].drop_last() =~= Seq::<EntryView>::empty());
    assert(run(st, seq![e].drop_last()) == st);
}

/// The loaded tree: its index, its points in order, and the issues found.
pub struct LoadedTree {
    pub id_index: KpIndex,
    pub points: Vec<PointRef>,
    pub issues: Vec<Issue>,
}

impl View for LoadedTree {
    type V = TreeState;

    open spec fn view(&self) -> TreeState {
        TreeState {
            index: self.id_index@,
            points: self.points@.map_values(|p: PointRef| p@),
            issues: self.issues@.map_values(|i: Issue| i@),
        }
    }
}

fn copy_string(s: &String) -> (r: String)
    ensures
        r@ == s@,
{
    s.clone()
}

/// Registers one node: reports a repeated id, records the id, reports an id
/// that does not extend its parent's, and lists a point.
fn register(
    st: &mut LoadedTree,
    id: &String,
    name: &String,
    path: String,
    level: Level,
    parent: Option<&String>,
)
    ensures
        final(st)@ == step(
            old(st)@,
            EntryView {
                id: id@,
                node: NodeView { name: name@, path: path@, level },
                parent: match parent {
                    Some(p) => Some(p@),
                    None => None,
                },
            },
        ),
{
    let ghost e = EntryView {
        id: id@,
        node: NodeView { name: name@, path: path@, level },
        parent: match parent {
            Some(p) => Some(p@),
            None => None,
        },
    };
    let ghost old_issues = st.issues@.map_values(|i: Issue| i@);
    let ghost old_points = st.points@.map_values(|p: PointRef| p@);
    let ghost st0 = st@;
    let dup = st.id_index.contains_key(id.as_str());
    if dup {
        st.issues.push(Issue::DuplicateId { id: copy_string(id) });
    }
    let ghost mid_issues = st.issues@.map_values(|i: Issue| i@);
    assert(mid_issues =~= old_issues + (if st0.index.contains_key(e.id) {
        seq![IssueView::DuplicateId { id: e.id }]
    } else {
        seq![]
    }));
    let path_for_point = copy_string(&path);
    st.id_index.insert(copy_string(id), KpNode { name: copy_string(name), path, level });
    match parent {
        Some(p) => {
            if !is_child(id.as_str(), p.as_str()) {
                st.issues.push(
                    Issue::PrefixMismatch { level, child: copy_string(id), parent: copy_string(p) },
                );
            }
        },
        None => {},
    }
    assert(st.issues@.map_values(|i: Issue| i@) =~= old_issues + entry_issues(st0, e));
    if level == Level::Point {
        st.points.push(PointRef { id: copy_string(id), name: copy_string(name), path: path_for_point });
        assert(st.points@.map_values(|p: PointRef| p@) =~= old_points.push(
            PointView { id: e.id, name: e.node.name, path: e.node.path },
        ));
    }
    assert(st@ =~= step(st0, e));
}

fn add_section(st: &mut LoadedTree, cpath: &String, cid: &String, sec: &Section)
    ensures
        final(st)@ == run(old(st)@, section_entries(cpath@, cid@, *sec)),
{
    let ghost st0 = st@;
    let spath = join_path_exec(cpath.as_str(), sec.name.as_str());
    register(st, &sec.id, &sec.name, copy_string(&spath), Level::Section, Some(cid));
    let ghost st1 = st@;
    let ghost sec_e = EntryView {
        id: sec.id@,
        node: NodeView { name: sec.name@, path: spath@, level: Level::Section },
        parent: Some(cid@),
    };
    let ghost pts = sec.points@;
    let mut i: usize = 0;
    while i < sec.points.len()
        invariant
            0 <= i <= pts.len(),
            pts == sec.points@,
            st@ == run(st1, points_entries(spath@, sec.id@, pts.take(i as int))),
        decreases pts.len() - i,
    {
        let pt = &sec.points[i];
        let ppath = join_path_exec(spath.as_str(), pt.name.as_str());
        register(st, &pt.id, &pt.name, ppath, Level::Point, Some(&sec.id));
        proof {
            assert(pts.take(i + 1).drop_last() =~= pts.take(i as int));
            assert(pts.take(i + 1).last() == pts[i as int]);
            assert(points_entries(spath@, sec.id@, pts.take(i + 1)) == points_entries(
                spath@,
                sec.id@,
                pts.take(i as int),
            ).push(point_entry(spath@, sec.id@, pts[i as int])));
            let xs = points_entries(spath@, sec.id@, pts.take(i as int));
            let e = point_entry(spath@, sec.id@, pts[i as int]);
            assert(xs.push(e).drop_last() =~= xs);
        }
        i = i + 1;
    }
    proof {
        assert(pts.take(pts.len() as int) =~= pts);
        lemma_run_one(st0, sec_e);
        lemma_run_append(st0, seq![sec_e], points_entries(spath@, sec.id@, pts));
    }
}

fn add_chapter(st: &mut LoadedTree, vshort: &String, vid: &String, chap: &Chapter)
    ensures
        final(st)@ == run(old(st)@, chapter_entries(vshort@, vid@, *chap)),
{
    let ghost st0 = st@;
    let cpath = join_path_exec(vshort.as_str(), chap.name.as_str());
    register(st, &chap.id, &chap.name, copy_string(&cpath), Level::Chapter, Some(vid));
    let ghost st1 = st@;
    let ghost chap_e = EntryView {
        id: chap.id@,
        node: NodeView { name: chap.name@, path: cpath@, level: Level::Chapter },
        parent: Some(vid@),
    };
    let ghost ss = chap.sections@;
    let mut i: usize = 0;
    while i < chap.sections.len()
        invariant
            0 <= i <= ss.len(),
            ss == chap.sections@,
            st@ == run(st1, sections_entries(cpath@, chap.id@, ss.take(i as int))),
        decreases ss.len() - i,
    {
        add_section(st, &cpath, &chap.id, &chap.sections[i]);
        proof {
            assert(ss.take(i + 1).drop_last() =~= ss.take(i as int));
            lemma_run_append(
                st1,
                sections_entries(cpath@, chap.id@, ss.take(i as int)),
                section_entries(cpath@, chap.id@, ss[i as int]),
            );
        }
        i = i + 1;
    }
    proof {
        assert(ss.take(ss.len() as int) =~= ss);
        lemma_run_one(st0, chap_e);
        lemma_run_append(st0, seq![chap_e], sections_entries(cpath@, chap.id@, ss));
    }
}

fn add_volume(st: &mut LoadedTree, vol: &Volume)
    ensures
        final(st)@ == run(old(st)@, volume_entries(*vol)),
{
    let ghost st0 = st@;
    let vshort = vol_short(vol.grade.as_str(), vol.volume.as_str());
    register(st, &vol.id, &vshort, copy_string(&vshort), Level::Volume, None);
    let ghost st1 = st@;
    let ghost vol_e = EntryView {
        id: vol.id@,
        node: NodeView { name: vshort@, path: vshort@, level: Level::Volume },
        parent: None,
    };
    let ghost cs = vol.chapters@;
    let mut i: usize = 0;
    while i < vol.chapters.len()
        invariant
            0 <= i <= cs.len(),
            cs == vol.chapters@,
            st@ == run(st1, chapters_entries(vshort@, vol.id@, cs.take(i as int))),
        decreases cs.len() - i,
    {
        add_chapter(st, &vshort, &vol.id, &vol.chapters[i]);
        proof {
            assert(cs.take(i + 1).drop_last() =~= cs.take(i as int));
            lemma_run_append(
                st1,
                chapters_entries(vshort@, vol.id@, cs.take(i as int)),
                chapter_entries(vshort@, vol.id@, cs[i as int]),
            );
        }
        i = i + 1;
    }
    proof {
        assert(cs.take(cs.len() as int) =~= cs);
        lemma_run_one(st0, vol_e);
        lemma_run_append(st0, seq![vol_e], chapters_entries(vshort@, vol.id@, cs));
    }
}

/// Loads the tree: registers every volume, chapter, section and point in
/// order, building the id index, the list of points and the issues found.
pub fn build_index(tree: &KpTree) -> (r: LoadedTree)
    ensures
        r@ == run(empty_state(), tree_entries(*tree)),
{
    let mut st = LoadedTree { id_index: KpIndex::new(), points: Vec::new(), issues: Vec::new() };
    assert(st@ =~= empty_state());
    let ghost vs = tree.volumes@;
    let mut i: usize = 0;
    while i < tree.volumes.len()
        invariant
            0 <= i <= vs.len(),
            vs == tree.volumes@,
            st@ == run(empty_state(), volumes_entries(vs.take(i as int))),
        decreases vs.len() - i,
    {
        add_volume(&mut st, &tree.volumes[i]);
        proof {
            assert(vs.take(i + 1).drop_last() =~= vs.take(i as int));
            lemma_run_append(
                empty_state(),
                volumes_entries(vs.take(i as int)),
                volume_entries(vs[i as int]),
            );
        }
        i = i + 1;
    }
    proof {
        assert(vs.take(vs.len() as int) =~= vs);
    }
    st
}


// ---------------------------------------------------------------------------
// What loading guarantees
// ---------------------------------------------------------------------------
/// No id occurs twice among the entries.
pub open spec fn ids_distinct(es: Seq<EntryView>) -> bool {
    forall|i: int, j: int| 0 <= i < j < es.len() ==> es[i].id != es[j].id
}

/// An entry's id extends its parent's id by a dot (volumes have no parent).
pub open spec fn entry_nested(e: EntryView) -> bool {
    match e.parent {
        Some(p) => id_is_child(e.id, p),
        None => true,
    }
}

pub open spec fn all_nested(es: Seq<EntryView>) -> bool {
    forall|i: int| 0 <= i < es.len() ==> entry_nested(#[trigger] es[i])
}

pub proof fn lemma_run_index_domain(es: Seq<EntryView>, k: Seq<char>)
    ensures
        run(empty_state(), es).index.contains_key(k) <==> exists|i: int|
            0 <= i < es.len() && es[i].id == k,
    decreases es.len(),
{
    if es.len() > 0 {
        let es2 = es.drop_last();
        lemma_run_index_domain(es2, k);
        if exists|i: int| 0 <= i < es2.len() && es2[i].id == k {
            let i = choose|i: int| 0 <= i < es2.len() && es2[i].id == k;
            assert(es[i].id == k);
        }
        if exists|i: int| 0 <= i < es.len() && es[i].id == k {
            let i = choose|i: int| 0 <= i < es.len() && es[i].id == k;
            if i < es.len() - 1 {
                assert(es2[i].id == k);
            }
        }
    }
}

pub proof fn lemma_run_index_value(es: Seq<EntryView>, i: int)
    requires
        0 <= i < es.len(),
        forall|j: int| i < j < es.len() ==> es[j].id != es[i].id,
    ensures
        run(empty_state(), es).index.contains_key(es[i].id),
        run(empty_state(), es).index[es[i].id] == es[i].node,
    decreases es.len(),
{
    if i < es.len() - 1 {
        let es2 = es.drop_last();
        assert forall|j: int| i < j < es2.len() implies es2[j].id != es2[i].id by {
            assert(es2[j] == es[j]);
        }
        lemma_run_index_value(es2, i);
        assert(es.last().id != es[i].id);
    }
}

pub proof fn lemma_run_issues(es: Seq<EntryView>)
    ensures
        run(empty_state(), es).issues.len() == 0 <==> (ids_distinct(es) && all_nested(es)),
    decreases es.len(),
{
    if es.len() > 0 {
        let es2 = es.drop_last();
        let e = es.last();
        let n = es.len() - 1;
        lemma_run_issues(es2);
        lemma_run_index_domain(es2, e.id);
        let st2 = run(empty_state(), es2);
        let extra = entry_issues(st2, e);
        assert(extra.len() == 0 <==> (!st2.index.contains_key(e.id) && entry_nested(e)));
        if ids_distinct(es) && all_nested(es) {
            assert forall|i: int, j: int| 0 <= i < j < es2.len() implies es2[i].id != es2[j].id by {
                assert(es[i].id != es[j].id);
            }
            assert forall|i: int| 0 <= i < es2.len() implies entry_nested(#[trigger] es2[i]) by {
                assert(entry_nested(es[i]));
            }
            assert(entry_nested(es[n]));
            if st2.index.contains_key(e.id) {
                let i = choose|i: int| 0 <= i < es2.len() && es2[i].id == e.id;
                assert(es[i].id != es[n].id);
            }
        }
        if ids_distinct(es2) && all_nested(es2) && !st2.index.contains_key(e.id) && entry_nested(e) {
            assert forall|i: int, j: int| 0 <= i < j < es.len() implies es[i].id != es[j].id by {
                if j < n {
                    assert(es2[i].id != es2[j].id);
                } else {
                    assert(es2[i].id == es[i].id);
                }
            }
            assert forall|i: int| 0 <= i < es.len() implies entry_nested(#[trigger] es[i]) by {
                if i < n {
                    assert(entry_nested(es2[i]));
                }
            }
        }
    }
}

/// Every id of the tree is in the loaded index.
pub proof fn law_every_id_indexed(tree: KpTree, i: int)
    requires
        0 <= i < tree_entries(tree).len(),
    ensures
        run(empty_state(), tree_entries(tree)).index.contains_key(tree_entries(tree)[i].id),
{
    lemma_run_index_domain(tree_entries(tree), tree_entries(tree)[i].id);
}

/// The index holds nothing but the tree's ids.
pub proof fn law_index_only_tree_ids(tree: KpTree, k: Seq<char>)
    requires
        run(empty_state(), tree_entries(tree)).index.contains_key(k),
    ensures
        exists|i: int| 0 <= i < tree_entries(tree).len() && tree_entries(tree)[i].id == k,
{
    lemma_run_index_domain(tree_entries(tree), k);
}

/// An id maps to the node of the last place it occurs in the tree.
pub proof fn law_last_occurrence_wins(tree: KpTree, i: int)
    requires
        0 <= i < tree_entries(tree).len(),
        forall|j: int|
            i < j < tree_entries(tree).len() ==> tree_entries(tree)[j].id != tree_entries(tree)[i].id,
    ensures
        run(empty_state(), tree_entries(tree)).index[tree_entries(tree)[i].id]
            == tree_entries(tree)[i].node,
{
    lemma_run_index_value(tree_entries(tree), i);
}

/// Loading reports no issue exactly when all ids are distinct and every id
/// extends its parent's id by a dot.
pub proof fn law_no_issues_iff_consistent(tree: KpTree)
    ensures
        run(empty_state(), tree_entries(tree)).issues.len() == 0 <==> (ids_distinct(
            tree_entries(tree),
        ) && all_nested(tree_entries(tree))),
{
    lemma_run_issues(tree_entries(tree));
}


/// Number of entries whose id occurred at an earlier entry.
pub open spec fn repeat_count(es: Seq<EntryView>) -> nat
    decreases es.len(),
{
    if es.len() == 0 {
        0
    } else {
        let es2 = es.drop_last();
        repeat_count(es2) + if exists|j: int| 0 <= j < es2.len() && es2[j].id == es.last().id {
            1nat
        } else {
            0nat
        }
    }
}

/// Number of entries whose id does not extend their parent's.
pub open spec fn violation_count(es: Seq<EntryView>) -> nat
    decreases es.len(),
{
    if es.len() == 0 {
        0
    } else {
        violation_count(es.drop_last()) + if entry_nested(es.last()) {
            0nat
        } else {
            1nat
        }
    }
}

/// Number of repeated-id issues.
pub open spec fn duplicate_issue_count(is: Seq<IssueView>) -> nat
    decreases is.len(),
{
    if is.len() == 0 {
        0
    } else {
        duplicate_issue_count(is.drop_last()) + if is.last() is DuplicateId {
            1nat
        } else {
            0nat
        }
    }
}

proof fn lemma_duplicate_issue_count_append(a: Seq<IssueView>, b: Seq<IssueView>)
    ensures
        duplicate_issue_count(a + b) == duplicate_issue_count(a) + duplicate_issue_count(b),
    decreases b.len(),
{
    if b.len() == 0 {
        assert(a + b =~= a);
    } else {
        lemma_duplicate_issue_count_append(a, b.drop_last());
        assert((a + b).drop_last() =~= a + b.drop_last());
    }
}

pub proof fn lemma_run_issue_counts(es: Seq<EntryView>)
    ensures
        run(empty_state(), es).issues.len() == repeat_count(es) + violation_count(es),
        duplicate_issue_count(run(empty_state(), es).issues) == repeat_count(es),
    decreases es.len(),
{
    if es.len() > 0 {
        let es2 = es.drop_last();
        let e = es.last();
        lemma_run_issue_counts(es2);
        lemma_run_index_domain(es2, e.id);
        let st2 = run(empty_state(), es2);
        let dup: Seq<IssueView> = if st2.index.contains_key(e.id) {
            seq![IssueView::DuplicateId { id: e.id }]
        } else {
            seq![]
        };
        let mis: Seq<IssueView> = match e.parent {
            Some(p) => if id_is_child(e.id, p) {
                seq![]
            } else {
                seq![IssueView::PrefixMismatch { level: e.node.level, child: e.id, parent: p }]
            },
            None => seq![],
        };
        assert(entry_issues(st2, e) == dup + mis);
        lemma_duplicate_issue_count_append(st2.issues, dup + mis);
        lemma_duplicate_issue_count_append(dup, mis);
        assert(duplicate_issue_count(Seq::<IssueView>::empty()) == 0);
        if dup.len() == 1 {
            assert(dup.drop_last() =~= Seq::<IssueView>::empty());
            assert(duplicate_issue_count(dup) == 1);
        } else {
            assert(dup =~= Seq::<IssueView>::empty());
        }
        if mis.len() == 1 {
            assert(mis.drop_last() =~= Seq::<IssueView>::empty());
            assert(duplicate_issue_count(mis) == 0);
        } else {
            assert(mis =~= Seq::<IssueView>::empty());
        }
    }
}

pub proof fn lemma_run_index_size(es: Seq<EntryView>)
    ensures
        run(empty_state(), es).index.dom().finite(),
        run(empty_state(), es).index.dom().len() + repeat_count(es) == es.len(),
    decreases es.len(),
{
    if es.len() == 0 {
        assert(run(empty_state(), es).index.dom() =~= Set::<Seq<char>>::empty());
    } else {
        let es2 = es.drop_last();
        let e = es.last();
        lemma_run_index_size(es2);
        lemma_run_index_domain(es2, e.id);
        let d2 = run(empty_state(), es2).index.dom();
        assert(run(empty_state(), es).index.dom() =~= d2.insert(e.id));
        if d2.contains(e.id) {
            assert(d2.insert(e.id) =~= d2);
        }
    }
}

/// Loading reports one issue per repeated occurrence of an id and one per id
/// that does not extend its parent's id; the repeated-id issues are exactly
/// the repeated occurrences.
pub proof fn law_issue_count(tree: KpTree)
    ensures
        run(empty_state(), tree_entries(tree)).issues.len() == repeat_count(tree_entries(tree))
            + violation_count(tree_entries(tree)),
        duplicate_issue_count(run(empty_state(), tree_entries(tree)).issues) == repeat_count(
            tree_entries(tree),
        ),
{
    lemma_run_issue_counts(tree_entries(tree));
}

/// Every registration either adds a new id to the index or reports a repeated
/// id: index size plus repeated-id issues is the number of tree nodes.
pub proof fn law_index_size_plus_repeats(tree: KpTree)
    ensures
        run(empty_state(), tree_entries(tree)).index.dom().finite(),
        run(empty_state(), tree_entries(tree)).index.dom().len() + duplicate_issue_count(
            run(empty_state(), tree_entries(tree)).issues,
        ) == tree_entries(tree).len(),
{
    lemma_run_index_size(tree_entries(tree));
    lemma_run_issue_counts(tree_entries(tree));
}


// ---------------------------------------------------------------------------
// Paths: each node's path is built from its own ancestors only
// ---------------------------------------------------------------------------
proof fn lemma_contains_concat<A>(a: Seq<A>, b: Seq<A>, x: A)
    ensures
        a.contains(x) ==> (a + b).contains(x),
        b.contains(x) ==> (a + b).contains(x),
{
    if a.contains(x) {
        let k = choose|k: int| 0 <= k < a.len() && a[k] == x;
        assert((a + b)[k] == x);
    }
    if b.contains(x) {
        let k = choose|k: int| 0 <= k < b.len() && b[k] == x;
        assert((a + b)[a.len() + k] == x);
    }
}

proof fn lemma_points_contain(spath: Seq<char>, sid: Seq<char>, pts: Seq<Point>, k: int)
    requires
        0 <= k < pts.len(),
    ensures
        points_entries(spath, sid, pts).contains(point_entry(spath, sid, pts[k])),
    decreases pts.len(),
{
    let front = points_entries(spath, sid, pts.drop_last());
    let all = front.push(point_entry(spath, sid, pts.last()));
    if k == pts.len() - 1 {
        assert(all[front.len() as int] == point_entry(spath, sid, pts[k]));
    } else {
        assert(pts.drop_last()[k] == pts[k]);
        lemma_points_contain(spath, sid, pts.drop_last(), k);
        let w = choose|w: int| 0 <= w < front.len() && front[w] == point_entry(spath, sid, pts[k]);
        assert(all[w] == point_entry(spath, sid, pts[k]));
    }
}

proof fn lemma_sections_contain(
    cpath: Seq<char>,
    cid: Seq<char>,
    ss: Seq<Section>,
    k: int,
    e: EntryView,
)
    requires
        0 <= k < ss.len(),
        section_entries(cpath, cid, ss[k]).contains(e),
    ensures
        sections_entries(cpath, cid, ss).contains(e),
    decreases ss.len(),
{
    if k < ss.len() - 1 {
        assert(ss.drop_last()[k] == ss[k]);
        lemma_sections_contain(cpath, cid, ss.drop_last(), k, e);
    }
    lemma_contains_concat(
        sections_entries(cpath, cid, ss.drop_last()),
        section_entries(cpath, cid, ss.last()),
        e,
    );
}

proof fn lemma_chapters_contain(
    vshort: Seq<char>,
    vid: Seq<char>,
    cs: Seq<Chapter>,
    k: int,
    e: EntryView,
)
    requires
        0 <= k < cs.len(),
        chapter_entries(vshort, vid, cs[k]).contains(e),
    ensures
        chapters_entries(vshort, vid, cs).contains(e),
    decreases cs.len(),
{
    if k < cs.len() - 1 {
        assert(cs.drop_last()[k] == cs[k]);
        lemma_chapters_contain(vshort, vid, cs.drop_last(), k, e);
    }
    lemma_contains_concat(
        chapters_entries(vshort, vid, cs.drop_last()),
        chapter_entries(vshort, vid, cs.last()),
        e,
    );
}

proof fn lemma_volumes_contain(vs: Seq<Volume>, k: int, e: EntryView)
    requires
        0 <= k < vs.len(),
        volume_entries(vs[k]).contains(e),
    ensures
        volumes_entries(vs).contains(e),
    decreases vs.len(),
{
    if k < vs.len() - 1 {
        assert(vs.drop_last()[k] == vs[k]);
        lemma_volumes_contain(vs.drop_last(), k, e);
    }
    lemma_contains_concat(volumes_entries(vs.drop_last()), volume_entries(vs.last()), e);
}

/// What a chapter contributes is registered while loading its volume.
proof fn lemma_chapter_in_tree(tree: KpTree, vi: int, ci: int, e: EntryView)
    requires
        0 <= vi < tree.volumes@.len(),
        0 <= ci < tree.volumes@[vi].chapters@.len(),
        chapter_entries(
            volume_short_name(tree.volumes@[vi].grade@, tree.volumes@[vi].volume@),
            tree.volumes@[vi].id@,
            tree.volumes@[vi].chapters@[ci],
        ).contains(e),
    ensures
        tree_entries(tree).contains(e),
{
    let v = tree.volumes@[vi];
    let vshort = volume_short_name(v.grade@, v.volume@);
    let ce = chapters_entries(vshort, v.id@, v.chapters@);
    lemma_chapters_contain(vshort, v.id@, v.chapters@, ci, e);
    let k = choose|k: int| 0 <= k < ce.len() && ce[k] == e;
    assert(volume_entries(v)[k + 1] == e);
    lemma_volumes_contain(tree.volumes@, vi, e);
}

/// What a section contributes is registered while loading its chapter.
proof fn lemma_section_in_chapter(vshort: Seq<char>, vid: Seq<char>, c: Chapter, si: int, e: EntryView)
    requires
        0 <= si < c.sections@.len(),
        section_entries(vshort + " > "@ + c.name@, c.id@, c.sections@[si]).contains(e),
    ensures
        chapter_entries(vshort, vid, c).contains(e),
{
    let cpath = vshort + " > "@ + c.name@;
    let se = sections_entries(cpath, c.id@, c.sections@);
    lemma_sections_contain(cpath, c.id@, c.sections@, si, e);
    let k = choose|k: int| 0 <= k < se.len() && se[k] == e;
    assert(chapter_entries(vshort, vid, c)[k + 1] == e);
}

/// With distinct ids, an entry of the tree is indexed under its own node.
proof fn lemma_indexed(es: Seq<EntryView>, e: EntryView)
    requires
        ids_distinct(es),
        es.contains(e),
    ensures
        run(empty_state(), es).index.contains_key(e.id),
        run(empty_state(), es).index[e.id] == e.node,
{
    let i = choose|i: int| 0 <= i < es.len() && es[i] == e;
    lemma_run_index_value(es, i);
}

/// Every point entry is listed among the loaded points.
proof fn lemma_point_listed(es: Seq<EntryView>, e: EntryView)
    requires
        es.contains(e),
        e.node.level == Level::Point,
    ensures
        run(empty_state(), es).points.contains(
            (PointView { id: e.id, name: e.node.name, path: e.node.path }),
        ),
    decreases es.len(),
{
    let pv = PointView { id: e.id, name: e.node.name, path: e.node.path };
    let es2 = es.drop_last();
    let before = run(empty_state(), es2).points;
    let after = run(empty_state(), es).points;
    if es.last() == e {
        assert(after == before.push(pv));
        assert(after[before.len() as int] == pv);
    } else {
        let i = choose|i: int| 0 <= i < es.len() && es[i] == e;
        assert(es2[i] == e);
        lemma_point_listed(es2, e);
        let w = choose|w: int| 0 <= w < before.len() && before[w] == pv;
        assert(after[w] == pv);
    }
}

/// A chapter is indexed under its name at the path
/// `<volume short name> > <chapter name>`, whatever chapters come before it
/// in its volume. (Ids are taken distinct: a repeated id is indexed under its
/// last occurrence.)
pub proof fn law_chapter_path(tree: KpTree, vi: int, ci: int)
    requires
        ids_distinct(tree_entries(tree)),
        0 <= vi < tree.volumes@.len(),
        0 <= ci < tree.volumes@[vi].chapters@.len(),
    ensures
        ({
            let v = tree.volumes@[vi];
            let c = v.chapters@[ci];
            let index = run(empty_state(), tree_entries(tree)).index;
            &&& index.contains_key(c.id@)
            &&& index[c.id@].name == c.name@
            &&& index[c.id@].path == volume_short_name(v.grade@, v.volume@) + " > "@ + c.name@
            &&& index[c.id@].level == Level::Chapter
        }),
{
    let v = tree.volumes@[vi];
    let c = v.chapters@[ci];
    let vshort = volume_short_name(v.grade@, v.volume@);
    let ce = chapter_entries(vshort, v.id@, c);
    assert(ce[0].id == c.id@);
    lemma_chapter_in_tree(tree, vi, ci, ce[0]);
    lemma_indexed(tree_entries(tree), ce[0]);
}

/// A section is indexed under its name at its chapter's path followed by
/// ` > ` and its own name.
pub proof fn law_section_path(tree: KpTree, vi: int, ci: int, si: int)
    requires
        ids_distinct(tree_entries(tree)),
        0 <= vi < tree.volumes@.len(),
        0 <= ci < tree.volumes@[vi].chapters@.len(),
        0 <= si < tree.volumes@[vi].chapters@[ci].sections@.len(),
    ensures
        ({
            let v = tree.volumes@[vi];
            let c = v.chapters@[ci];
            let s = c.sections@[si];
            let index = run(empty_state(), tree_entries(tree)).index;
            &&& index.contains_key(s.id@)
            &&& index[s.id@].name == s.name@
            &&& index[s.id@].path == volume_short_name(v.grade@, v.volume@) + " > "@ + c.name@
                + " > "@ + s.name@
            &&& index[s.id@].level == Level::Section
        }),
{
    let v = tree.volumes@[vi];
    let c = v.chapters@[ci];
    let s = c.sections@[si];
    let vshort = volume_short_name(v.grade@, v.volume@);
    let cpath = vshort + " > "@ + c.name@;
    let se = section_entries(cpath, c.id@, s);
    assert(se[0].id == s.id@);
    assert(se.contains(se[0]));
    lemma_section_in_chapter(vshort, v.id@, c, si, se[0]);
    lemma_chapter_in_tree(tree, vi, ci, se[0]);
    lemma_indexed(tree_entries(tree), se[0]);
}

/// A point is listed among the loaded points with the path
/// `<volume> > <chapter> > <section> > <point>`, and (ids distinct) is
/// indexed under that path.
pub proof fn law_point_path(tree: KpTree, vi: int, ci: int, si: int, pi: int)
    requires
        0 <= vi < tree.volumes@.len(),
        0 <= ci < tree.volumes@[vi].chapters@.len(),
        0 <= si < tree.volumes@[vi].chapters@[ci].sections@.len(),
        0 <= pi < tree.volumes@[vi].chapters@[ci].sections@[si].points@.len(),
    ensures
        ({
            let v = tree.volumes@[vi];
            let c = v.chapters@[ci];
            let s = c.sections@[si];
            let p = s.points@[pi];
            let path = volume_short_name(v.grade@, v.volume@) + " > "@ + c.name@ + " > "@ + s.name@
                + " > "@ + p.name@;
            let st = run(empty_state(), tree_entries(tree));
            &&& st.points.contains((PointView { id: p.id@, name: p.name@, path: path }))
            &&& ids_distinct(tree_entries(tree)) ==> {
                &&& st.index.contains_key(p.id@)
                &&& st.index[p.id@].name == p.name@
                &&& st.index[p.id@].path == path
                &&& st.index[p.id@].level == Level::Point
            }
        }),
{
    let v = tree.volumes@[vi];
    let c = v.chapters@[ci];
    let s = c.sections@[si];
    let p = s.points@[pi];
    let vshort = volume_short_name(v.grade@, v.volume@);
    let cpath = vshort + " > "@ + c.name@;
    let spath = cpath + " > "@ + s.name@;
    let pe = point_entry(spath, s.id@, p);
    let pts = points_entries(spath, s.id@, s.points@);
    lemma_points_contain(spath, s.id@, s.points@, pi);
    let k = choose|k: int| 0 <= k < pts.len() && pts[k] == pe;
    assert(section_entries(cpath, c.id@, s)[k + 1] == pe);
    lemma_section_in_chapter(vshort, v.id@, c, si, pe);
    lemma_chapter_in_tree(tree, vi, ci, pe);
    lemma_point_listed(tree_entries(tree), pe);
    if ids_distinct(tree_entries(tree)) {
        lemma_indexed(tree_entries(tree), pe);
    }
}


/// A volume is indexed under its short name, which is also its path.
pub proof fn law_volume_node(tree: KpTree, vi: int)
    requires
        ids_distinct(tree_entries(tree)),
        0 <= vi < tree.volumes@.len(),
    ensures
        ({
            let v = tree.volumes@[vi];
            let index = run(empty_state(), tree_entries(tree)).index;
            &&& index.contains_key(v.id@)
            &&& index[v.id@].name == volume_short_name(v.grade@, v.volume@)
            &&& index[v.id@].path == volume_short_name(v.grade@, v.volume@)
            &&& index[v.id@].level == Level::Volume
        }),
{
    let v = tree.volumes@[vi];
    let ve = volume_entries(v);
    assert(ve.contains(ve[0]));
    lemma_volumes_contain(tree.volumes@, vi, ve[0]);
    lemma_indexed(tree_entries(tree), ve[0]);
}

/// The point an entry lists, where it is one.
pub open spec fn listed_point(e: EntryView) -> PointView {
    PointView { id: e.id, name: e.node.name, path: e.node.path }
}

proof fn lemma_points_filter(es: Seq<EntryView>)
    ensures
        run(empty_state(), es).points == es.filter(
            |e: EntryView| e.node.level == Level::Point,
        ).map_values(|e: EntryView| listed_point(e)),
    decreases es.len(),
{
    reveal(Seq::filter);
    if es.len() > 0 {
        let es2 = es.drop_last();
        lemma_points_filter(es2);
        let f2 = es2.filter(|e: EntryView| e.node.level == Level::Point);
        if es.last().node.level == Level::Point {
            assert(f2.push(es.last()).map_values(|e: EntryView| listed_point(e)) =~= f2.map_values(
                |e: EntryView| listed_point(e),
            ).push(listed_point(es.last())));
        }
    }
}

/// The loaded points are the tree's points, each once per occurrence, in the
/// order of the tree (volume by volume, chapter by chapter, section by
/// section), with the path of each.
pub proof fn law_points_in_tree_order(tree: KpTree)
    ensures
        run(empty_state(), tree_entries(tree)).points == tree_entries(tree).filter(
            |e: EntryView| e.node.level == Level::Point,
        ).map_values(|e: EntryView| listed_point(e)),
{
    lemma_points_filter(tree_entries(tree));
}


/// An entry whose id does not extend its parent's is reported as such.
proof fn lemma_mismatch_reported(es: Seq<EntryView>, e: EntryView, p: Seq<char>)
    requires
        es.contains(e),
        e.parent == Some(p),
        !id_is_child(e.id, p),
    ensures
        run(empty_state(), es).issues.contains(
            IssueView::PrefixMismatch { level: e.node.level, child: e.id, parent: p },
        ),
    decreases es.len(),
{
    let issue = IssueView::PrefixMismatch { level: e.node.level, child: e.id, parent: p };
    let es2 = es.drop_last();
    let st2 = run(empty_state(), es2);
    let after = run(empty_state(), es).issues;
    if es.last() == e {
        let extra = entry_issues(st2, e);
        assert(extra[extra.len() - 1] == issue);
        assert(after[st2.issues.len() + extra.len() - 1] == issue);
    } else {
        let i = choose|i: int| 0 <= i < es.len() && es[i] == e;
        assert(es2[i] == e);
        lemma_mismatch_reported(es2, e, p);
        let w = choose|w: int| 0 <= w < st2.issues.len() && st2.issues[w] == issue;
        assert(after[w] == issue);
    }
}

/// A chapter whose id does not extend its volume's id by a dot is reported
/// with the chapter's and the volume's ids; so a tree loaded without issues
/// has every chapter id extending its volume's.
pub proof fn law_chapter_mismatch_reported(tree: KpTree, vi: int, ci: int)
    requires
        0 <= vi < tree.volumes@.len(),
        0 <= ci < tree.volumes@[vi].chapters@.len(),
    ensures
        ({
            let v = tree.volumes@[vi];
            let c = v.chapters@[ci];
            let issues = run(empty_state(), tree_entries(tree)).issues;
            &&& !id_is_child(c.id@, v.id@) ==> issues.contains(
                IssueView::PrefixMismatch { level: Level::Chapter, child: c.id@, parent: v.id@ },
            )
            &&& issues.len() == 0 ==> id_is_child(c.id@, v.id@)
        }),
{
    let v = tree.volumes@[vi];
    let c = v.chapters@[ci];
    let ce = chapter_entries(volume_short_name(v.grade@, v.volume@), v.id@, c);
    assert(ce.contains(ce[0]));
    lemma_chapter_in_tree(tree, vi, ci, ce[0]);
    if !id_is_child(c.id@, v.id@) {
        lemma_mismatch_reported(tree_entries(tree), ce[0], v.id@);
    }
}

/// A section whose id does not extend its chapter's id by a dot is reported
/// with the section's and the chapter's ids.
pub proof fn law_section_mismatch_reported(tree: KpTree, vi: int, ci: int, si: int)
    requires
        0 <= vi < tree.volumes@.len(),
        0 <= ci < tree.volumes@[vi].chapters@.len(),
        0 <= si < tree.volumes@[vi].chapters@[ci].sections@.len(),
    ensures
        ({
            let c = tree.volumes@[vi].chapters@[ci];
            let s = c.sections@[si];
            let issues = run(empty_state(), tree_entries(tree)).issues;
            &&& !id_is_child(s.id@, c.id@) ==> issues.contains(
                IssueView::PrefixMismatch { level: Level::Section, child: s.id@, parent: c.id@ },
            )
            &&& issues.len() == 0 ==> id_is_child(s.id@, c.id@)
        }),
{
    let v = tree.volumes@[vi];
    let c = v.chapters@[ci];
    let s = c.sections@[si];
    let vshort = volume_short_name(v.grade@, v.volume@);
    let se = section_entries(vshort + " > "@ + c.name@, c.id@, s);
    assert(se.contains(se[0]));
    lemma_section_in_chapter(vshort, v.id@, c, si, se[0]);
    lemma_chapter_in_tree(tree, vi, ci, se[0]);
    if !id_is_child(s.id@, c.id@) {
        lemma_mismatch_reported(tree_entries(tree), se[0], c.id@);
    }
}

/// A point whose id does not extend its section's id by a dot is reported
/// with the point's and the section's ids.
pub proof fn law_point_mismatch_reported(tree: KpTree, vi: int, ci: int, si: int, pi: int)
    requires
        0 <= vi < tree.volumes@.len(),
        0 <= ci < tree.volumes@[vi].chapters@.len(),
        0 <= si < tree.volumes@[vi].chapters@[ci].sections@.len(),
        0 <= pi < tree.volumes@[vi].chapters@[ci].sections@[si].points@.len(),
    ensures
        ({
            let s = tree.volumes@[vi].chapters@[ci].sections@[si];
            let p = s.points@[pi];
            let issues = run(empty_state(), tree_entries(tree)).issues;
            &&& !id_is_child(p.id@, s.id@) ==> issues.contains(
                IssueView::PrefixMismatch { level: Level::Point, child: p.id@, parent: s.id@ },
            )
            &&& issues.len() == 0 ==> id_is_child(p.id@, s.id@)
        }),
{
    let v = tree.volumes@[vi];
    let c = v.chapters@[ci];
    let s = c.sections@[si];
    let p = s.points@[pi];
    let vshort = volume_short_name(v.grade@, v.volume@);
    let cpath = vshort + " > "@ + c.name@;
    let spath = cpath + " > "@ + s.name@;
    let pe = point_entry(spath, s.id@, p);
    let pts = points_entries(spath, s.id@, s.points@);
    lemma_points_contain(spath, s.id@, s.points@, pi);
    let k = choose|k: int| 0 <= k < pts.len() && pts[k] == pe;
    assert(section_entries(cpath, c.id@, s)[k + 1] == pe);
    lemma_section_in_chapter(vshort, v.id@, c, si, pe);
    lemma_chapter_in_tree(tree, vi, ci, pe);
    if !id_is_child(p.id@, s.id@) {
        lemma_mismatch_reported(tree_entries(tree), pe, s.id@);
    }
}

} // verus!
