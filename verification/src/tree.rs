//! The directory tree that is browsed: one node for each entry seen so far.
use slotmap::{DefaultKey, SlotMap};
use vstd::prelude::*;
use vstd::std_specs::cmp::PartialEqSpecImpl;

use crate::lists;
use crate::filter;
use crate::filter::NodeRule;
use crate::order;
use crate::path;
use crate::path::FilePath;
use crate::scanner::DiscoveredEntry;
use crate::text;

pub mod opening;
pub mod removal;
pub mod sorting;

verus! {

#[derive(Clone, Copy, Debug, PartialEq, Eq, Structural)]
pub enum NodeKind {
    File,
    Directory,
    Symlink,
    Other,
}

impl NodeKind {
    pub open spec fn label_text(self) -> Seq<char> {
        match self {
            NodeKind::File => "File"@,
            NodeKind::Directory => "Directory"@,
            NodeKind::Symlink => "Symlink"@,
            NodeKind::Other => "Other"@,
        }
    }

    pub fn label(self) -> (label: &'static str)
        ensures
            label@ == self.label_text(),
    {
        match self {
            NodeKind::File => "File",
            NodeKind::Directory => "Directory",
            NodeKind::Symlink => "Symlink",
            NodeKind::Other => "Other",
        }
    }

    /// The place of the kind in a listing by kind.
    pub open spec fn rank(self) -> u64 {
        match self {
            NodeKind::File => 0,
            NodeKind::Directory => 1,
            NodeKind::Symlink => 2,
            NodeKind::Other => 3,
        }
    }
}

#[derive(Clone, Copy, Debug, PartialEq, Eq, Structural)]
pub enum ScanState {
    NotScanned,
    Queued,
    Scanning,
    Complete,
    Error,
}

impl ScanState {
    pub open spec fn label_text(self) -> Seq<char> {
        match self {
            ScanState::NotScanned => "Not scanned"@,
            ScanState::Queued => "Queued"@,
            ScanState::Scanning => "Scanning"@,
            ScanState::Complete => "Complete"@,
            ScanState::Error => "Error"@,
        }
    }

    pub fn label(self) -> (label: &'static str)
        ensures
            label@ == self.label_text(),
    {
        match self {
            ScanState::NotScanned => "Not scanned",
            ScanState::Queued => "Queued",
            ScanState::Scanning => "Scanning",
            ScanState::Complete => "Complete",
            ScanState::Error => "Error",
        }
    }
}

/// Which size of an entry is shown: the file length or the allocated space.
#[derive(Clone, Copy, Debug, PartialEq, Eq, Structural)]
pub enum SizeMode {
    Logical,
    Physical,
}

impl SizeMode {
    pub open spec fn label_text(self) -> Seq<char> {
        match self {
            SizeMode::Logical => "logical"@,
            SizeMode::Physical => "physical"@,
        }
    }

    pub fn label(self) -> (label: &'static str)
        ensures
            label@ == self.label_text(),
    {
        match self {
            SizeMode::Logical => "logical",
            SizeMode::Physical => "physical",
        }
    }

    pub open spec fn other(self) -> SizeMode {
        match self {
            SizeMode::Logical => SizeMode::Physical,
            SizeMode::Physical => SizeMode::Logical,
        }
    }

    pub fn toggled(self) -> (mode: SizeMode)
        ensures
            mode == self.other(),
    {
        match self {
            SizeMode::Logical => SizeMode::Physical,
            SizeMode::Physical => SizeMode::Logical,
        }
    }
}

#[derive(Clone, Copy, Debug, PartialEq, Eq, Structural)]
pub enum SortKey {
    Size,
    Name,
    Files,
    Kind,
}

#[derive(Clone, Copy, Debug, PartialEq, Eq, Structural)]
pub enum SortDirection {
    Ascending,
    Descending,
}

impl SortKey {
    pub open spec fn label_text(self) -> Seq<char> {
        match self {
            SortKey::Size => "size"@,
            SortKey::Name => "name"@,
            SortKey::Files => "files"@,
            SortKey::Kind => "kind"@,
        }
    }

    pub fn label(self) -> (label: &'static str)
        ensures
            label@ == self.label_text(),
    {
        match self {
            SortKey::Size => "size",
            SortKey::Name => "name",
            SortKey::Files => "files",
            SortKey::Kind => "kind",
        }
    }

    pub open spec fn following(self) -> SortKey {
        match self {
            SortKey::Size => SortKey::Name,
            SortKey::Name => SortKey::Files,
            SortKey::Files => SortKey::Kind,
            SortKey::Kind => SortKey::Size,
        }
    }

    /// The key that the sort command turns to next.
    pub fn next(self) -> (key: SortKey)
        ensures
            key == self.following(),
    {
        match self {
            SortKey::Size => SortKey::Name,
            SortKey::Name => SortKey::Files,
            SortKey::Files => SortKey::Kind,
            SortKey::Kind => SortKey::Size,
        }
    }

    /// Amounts come largest first, names and kinds in ascending order.
    pub open spec fn natural_direction(self) -> SortDirection {
        match self {
            SortKey::Size | SortKey::Files => SortDirection::Descending,
            SortKey::Name | SortKey::Kind => SortDirection::Ascending,
        }
    }

    pub fn default_direction(self) -> (direction: SortDirection)
        ensures
            direction == self.natural_direction(),
    {
        match self {
            SortKey::Size | SortKey::Files => SortDirection::Descending,
            SortKey::Name | SortKey::Kind => SortDirection::Ascending,
        }
    }
}

impl SortDirection {
    pub open spec fn opposite(self) -> SortDirection {
        match self {
            SortDirection::Ascending => SortDirection::Descending,
            SortDirection::Descending => SortDirection::Ascending,
        }
    }

    pub fn reversed(self) -> (direction: SortDirection)
        ensures
            direction == self.opposite(),
    {
        match self {
            SortDirection::Ascending => SortDirection::Descending,
            SortDirection::Descending => SortDirection::Ascending,
        }
    }

    pub open spec fn symbol_text(self) -> Seq<char> {
        match self {
            SortDirection::Ascending => "↑"@,
            SortDirection::Descending => "↓"@,
        }
    }

    pub fn symbol(self) -> (symbol: &'static str)
        ensures
            symbol@ == self.symbol_text(),
    {
        match self {
            SortDirection::Ascending => "↑",
            SortDirection::Descending => "↓",
        }
    }

    /// An amount as it counts in a sort key.
    pub open spec fn directed(self, amount: u64) -> u64 {
        match self {
            SortDirection::Ascending => amount,
            SortDirection::Descending => (u64::MAX - amount) as u64,
        }
    }

    pub fn direct(self, amount: u64) -> (result: u64)
        ensures
            result == self.directed(amount),
    {
        match self {
            SortDirection::Ascending => amount,
            SortDirection::Descending => u64::MAX - amount,
        }
    }

    /// A sort key in this direction.
    pub open spec fn directed_key(self, key: Seq<u64>) -> Seq<u64> {
        Seq::new(key.len(), |i: int| self.directed(key[i]))
    }

    pub fn direct_key(self, key: &Vec<u64>) -> (result: Vec<u64>)
        ensures
            result@ == self.directed_key(key@),
    {
        let mut result: Vec<u64> = Vec::new();
        let mut i: usize = 0;
        while i < key.len()
            invariant
                i <= key@.len(),
                result@ == self.directed_key(key@).take(i as int),
            decreases key@.len() - i,
        {
            result.push(self.direct(key[i]));
            i += 1;
            assert(result@ =~= self.directed_key(key@).take(i as int));
        }
        assert(result@ =~= self.directed_key(key@));
        result
    }
}

#[derive(Clone, Copy, Debug, PartialEq, Eq, Structural)]
pub struct SortSpec {
    pub key: SortKey,
    pub direction: SortDirection,
}

impl SortSpec {
    /// Largest first.
    pub open spec fn standard() -> SortSpec {
        SortSpec { key: SortKey::Size, direction: SortDirection::Descending }
    }
}

impl Default for SortSpec {
    fn default() -> (sort: Self)
        ensures
            sort == SortSpec::standard(),
    {
        SortSpec { key: SortKey::Size, direction: SortDirection::Descending }
    }
}

/// The largest number up to `n` that fits.
pub open spec fn saturated(n: int) -> u64 {
    if n > u64::MAX {
        u64::MAX
    } else if n < 0 {
        0
    } else {
        n as u64
    }
}

/// What an entry takes up: file length, allocated bytes, regular files.
#[derive(Clone, Copy, Debug, PartialEq, Eq, Structural)]
pub struct UsageStats {
    pub logical: u64,
    pub physical: u64,
    pub files: u64,
}

impl Default for UsageStats {
    fn default() -> (usage: Self)
        ensures
            usage == UsageStats::zero(),
    {
        UsageStats { logical: 0, physical: 0, files: 0 }
    }
}

impl UsageStats {
    pub open spec fn zero() -> UsageStats {
        UsageStats { logical: 0, physical: 0, files: 0 }
    }

    pub open spec fn amount(self, mode: SizeMode) -> u64 {
        match mode {
            SizeMode::Logical => self.logical,
            SizeMode::Physical => self.physical,
        }
    }

    /// The size in the given mode.
    pub fn size(self, mode: SizeMode) -> (size: u64)
        ensures
            size == self.amount(mode),
    {
        match mode {
            SizeMode::Logical => self.logical,
            SizeMode::Physical => self.physical,
        }
    }

    /// The sum of two usages, each part up to the largest number.
    pub open spec fn plus(self, other: UsageStats) -> UsageStats {
        UsageStats {
            logical: saturated(self.logical + other.logical),
            physical: saturated(self.physical + other.physical),
            files: saturated(self.files + other.files),
        }
    }

    pub fn saturating_add(self, other: UsageStats) -> (sum: UsageStats)
        ensures
            sum == self.plus(other),
    {
        UsageStats {
            logical: self.logical.saturating_add(other.logical),
            physical: self.physical.saturating_add(other.physical),
            files: self.files.saturating_add(other.files),
        }
    }

    /// The difference of two usages, each part down to zero.
    pub open spec fn minus(self, removed: UsageStats) -> UsageStats {
        UsageStats {
            logical: saturated(self.logical - removed.logical),
            physical: saturated(self.physical - removed.physical),
            files: saturated(self.files - removed.files),
        }
    }
}

/// The total without what was removed from it.
pub fn subtract_usage(total: UsageStats, removed: UsageStats) -> (rest: UsageStats)
    ensures
        rest == total.minus(removed),
{
    UsageStats {
        logical: total.logical.saturating_sub(removed.logical),
        physical: total.physical.saturating_sub(removed.physical),
        files: total.files.saturating_sub(removed.files),
    }
}

/// The total with one of its parts replaced.
pub fn replace_usage(total: UsageStats, previous: UsageStats, current: UsageStats) -> (result:
    UsageStats)
    ensures
        result == total.minus(previous).plus(current),
{
    subtract_usage(total, previous).saturating_add(current)
}

/// Taking out what was added gives the total back, where nothing saturates.
pub proof fn subtracting_undoes_adding(total: UsageStats, part: UsageStats)
    requires
        total.logical + part.logical <= u64::MAX,
        total.physical + part.physical <= u64::MAX,
        total.files + part.files <= u64::MAX,
    ensures
        total.plus(part).minus(part) == total,
{
}

/// The file behind a path: where it is stored and when it was last written.
#[derive(Clone, Copy, Debug, PartialEq, Eq, Structural)]
pub struct FileIdentity {
    pub device: u64,
    pub inode: u64,
    pub modified_seconds: i64,
    pub modified_nanoseconds: i64,
}

/// The key of a node in the arena.
#[verifier::external_type_specification]
#[verifier::external_body]
pub struct ExDefaultKey(slotmap::DefaultKey);

/// The name of a node. It stays valid until the node is removed.
#[derive(Clone, Copy, Debug)]
pub struct NodeId {
    pub key: DefaultKey,
}

/// `DefaultKey`'s `==`: two keys are equal when they are the same key.
#[verifier::external_body]
fn same_key(left: DefaultKey, right: DefaultKey) -> (same: bool)
    ensures
        same == (left == right),
{
    left == right
}

impl PartialEq for NodeId {
    fn eq(&self, other: &Self) -> (result: bool) {
        same_key(self.key, other.key)
    }
}

impl PartialEqSpecImpl for NodeId {
    open spec fn obeys_eq_spec() -> bool {
        true
    }

    open spec fn eq_spec(&self, other: &Self) -> bool {
        *self == *other
    }
}

impl Eq for NodeId {

}

/// An entry of the tree. `modified` counts seconds since the epoch.
#[derive(Debug)]
pub struct Node {
    pub path: FilePath,
    pub name: FilePath,
    pub kind: NodeKind,
    pub usage: Option<UsageStats>,
    pub scan_state: ScanState,
    pub scan_revision: u64,
    pub expanded: bool,
    pub children_loaded: bool,
    pub children_loading: bool,
    pub children: Vec<NodeId>,
    pub parent: Option<NodeId>,
    pub error: Option<String>,
    pub warning_count: usize,
    pub identity: Option<FileIdentity>,
    pub modified: Option<i64>,
    pub mountpoint: bool,
    pub cached: bool,
}

/// The characters of a text that may be missing.
pub open spec fn text_view(value: Option<String>) -> Option<Seq<char>> {
    match value {
        Some(value) => Some(value@),
        None => None,
    }
}

/// What a node holds.
pub struct NodeModel {
    pub path: FilePath,
    pub name: Seq<u8>,
    pub kind: NodeKind,
    pub usage: Option<UsageStats>,
    pub scan_state: ScanState,
    pub scan_revision: u64,
    pub expanded: bool,
    pub children_loaded: bool,
    pub children_loading: bool,
    pub children: Seq<NodeId>,
    pub parent: Option<NodeId>,
    pub error: Option<Seq<char>>,
    pub warning_count: usize,
    pub identity: Option<FileIdentity>,
    pub modified: Option<i64>,
    pub mountpoint: bool,
    pub cached: bool,
}

impl View for Node {
    type V = NodeModel;

    open spec fn view(&self) -> NodeModel {
        NodeModel {
            path: self.path,
            name: self.name@,
            kind: self.kind,
            usage: self.usage,
            scan_state: self.scan_state,
            scan_revision: self.scan_revision,
            expanded: self.expanded,
            children_loaded: self.children_loaded,
            children_loading: self.children_loading,
            children: self.children@,
            parent: self.parent,
            error: text_view(self.error),
            warning_count: self.warning_count,
            identity: self.identity,
            modified: self.modified,
            mountpoint: self.mountpoint,
            cached: self.cached,
        }
    }
}

/// The name of a path's last component, or the whole path where it has none.
pub open spec fn base_name(bytes: Seq<u8>) -> Seq<u8> {
    match path::file_name_of(bytes) {
        Some(name) => name,
        None => bytes,
    }
}

/// The name that is shown for a path.
pub fn base_name_of(path: &FilePath) -> (name: FilePath)
    ensures
        name@ == base_name(path@),
{
    match path.file_name() {
        Some(name) => name,
        None => path.clone(),
    }
}

impl NodeModel {
    /// The node of a scan root: an open directory.
    pub open spec fn for_root(path: FilePath) -> NodeModel {
        NodeModel {
            path,
            name: base_name(path@),
            kind: NodeKind::Directory,
            usage: None,
            scan_state: ScanState::NotScanned,
            scan_revision: 0,
            expanded: true,
            children_loaded: false,
            children_loading: false,
            children: Seq::empty(),
            parent: None,
            error: None,
            warning_count: 0,
            identity: None,
            modified: None,
            mountpoint: false,
            cached: false,
        }
    }

    /// The node of a directory entry. Only a directory still has to be scanned.
    pub open spec fn for_entry(entry: DiscoveredEntry, parent: NodeId) -> NodeModel {
        NodeModel {
            path: entry.path,
            name: entry.name@,
            kind: entry.kind,
            usage: entry.usage,
            scan_state: if entry.error is Some {
                ScanState::Error
            } else if entry.kind == NodeKind::Directory {
                ScanState::NotScanned
            } else {
                ScanState::Complete
            },
            scan_revision: 0,
            expanded: false,
            children_loaded: false,
            children_loading: false,
            children: Seq::empty(),
            parent: Some(parent),
            error: text_view(entry.error),
            warning_count: if entry.error is Some {
                1
            } else {
                0
            },
            identity: entry.identity,
            modified: entry.modified,
            mountpoint: entry.mountpoint,
            cached: false,
        }
    }

    /// Whether a scan of the node is still to come.
    pub open spec fn is_pending(self) -> bool {
        ||| self.scan_state == ScanState::NotScanned
        ||| self.scan_state == ScanState::Queued
        ||| self.scan_state == ScanState::Scanning
    }

    /// Whether the node's name contains the query, whatever the case.
    pub open spec fn is_named(self, query: Seq<char>) -> bool {
        text::contains_text(text::lowercase(text::lossy_text(self.name)), text::lowercase(query))
    }
}

impl Node {
    fn root(path: FilePath) -> (node: Self)
        ensures
            node@ == NodeModel::for_root(path),
    {
        let name = base_name_of(&path);
        let children: Vec<NodeId> = Vec::new();
        assert(children@ =~= Seq::empty());
        Node {
            path,
            name,
            kind: NodeKind::Directory,
            usage: None,
            scan_state: ScanState::NotScanned,
            scan_revision: 0,
            expanded: true,
            children_loaded: false,
            children_loading: false,
            children,
            parent: None,
            error: None,
            warning_count: 0,
            identity: None,
            modified: None,
            mountpoint: false,
            cached: false,
        }
    }

    fn from_entry(entry: DiscoveredEntry, parent: NodeId) -> (node: Self)
        ensures
            node@ == NodeModel::for_entry(entry, parent),
    {
        let has_error: bool = entry.error.is_some();
        let scan_state = if has_error {
            ScanState::Error
        } else if entry.kind == NodeKind::Directory {
            ScanState::NotScanned
        } else {
            ScanState::Complete
        };
        let children: Vec<NodeId> = Vec::new();
        assert(children@ =~= Seq::empty());
        Node {
            path: entry.path,
            name: entry.name,
            kind: entry.kind,
            usage: entry.usage,
            scan_state,
            scan_revision: 0,
            expanded: false,
            children_loaded: false,
            children_loading: false,
            children,
            parent: Some(parent),
            error: entry.error,
            warning_count: if has_error {
                1
            } else {
                0
            },
            identity: entry.identity,
            modified: entry.modified,
            mountpoint: entry.mountpoint,
            cached: false,
        }
    }

    /// Whether the node's name contains the query, whatever the case.
    pub fn matches(&self, query: &str) -> (result: bool)
        ensures
            result == self@.is_named(query@),
    {
        let name = self.name.display();
        let lower = query.to_lowercase();
        text::contains_lower(name.as_str(), lower.as_str())
    }
}

/// The arena that holds the nodes.
#[verifier::external_body]
pub struct NodeStore {
    slots: SlotMap<DefaultKey, Node>,
}

/// The nodes of an arena by their names.
pub uninterp spec fn nodes_of(store: NodeStore) -> Map<NodeId, Node>;

/// The names of an arena's nodes in the order of their slots. A name fixes its
/// slot, so the set of names fixes the order.
pub uninterp spec fn slot_order(ids: Set<NodeId>) -> Seq<NodeId>;

/// The number of nodes that an arena can hold.
pub const NODE_LIMIT: usize = 0xffff_fffe;

/// `SlotMap::with_key`: the arena is empty.
#[verifier::external_body]
fn new_store() -> (store: NodeStore)
    ensures
        nodes_of(store).dom() == Set::<NodeId>::empty(),
{
    NodeStore { slots: SlotMap::with_key() }
}

/// `SlotMap::len` counts the nodes.
#[verifier::external_body]
fn store_len(store: &NodeStore) -> (count: usize)
    ensures
        count == nodes_of(*store).dom().len(),
{
    store.slots.len()
}

/// `SlotMap::insert` adds the node under a key that no node of the arena has.
/// It panics when the arena is full, which the bound excludes.
#[verifier::external_body]
fn store_insert(store: &mut NodeStore, node: Node) -> (id: NodeId)
    requires
        nodes_of(*old(store)).dom().len() < NODE_LIMIT,
    ensures
        !nodes_of(*old(store)).dom().contains(id),
        nodes_of(*final(store)) == nodes_of(*old(store)).insert(id, node),
{
    NodeId { key: store.slots.insert(node) }
}

/// `SlotMap::get` finds the node with a key.
#[verifier::external_body]
fn store_get(store: &NodeStore, id: NodeId) -> (node: Option<&Node>)
    ensures
        node == (if nodes_of(*store).dom().contains(id) {
            Some(&nodes_of(*store)[id])
        } else {
            None
        }),
{
    store.slots.get(id.key)
}

/// Indexing a `SlotMap` mutably: what is written there replaces the node, and
/// nothing else changes. It panics when there is no such node.
#[verifier::external_body]
fn store_get_mut(store: &mut NodeStore, id: NodeId) -> (node: &mut Node)
    requires
        nodes_of(*old(store)).dom().contains(id),
    ensures
        *node == nodes_of(*old(store))[id],
        nodes_of(*final(store)) == nodes_of(*old(store)).insert(id, *final(node)),
{
    &mut store.slots[id.key]
}

/// `SlotMap::remove` takes the node out, if there is one.
#[verifier::external_body]
fn store_remove(store: &mut NodeStore, id: NodeId)
    ensures
        nodes_of(*final(store)) == nodes_of(*old(store)).remove(id),
{
    store.slots.remove(id.key);
}

/// `SlotMap::keys` lists each key once, in the order of the slots.
#[verifier::external_body]
fn store_ids(store: &NodeStore) -> (ids: Vec<NodeId>)
    ensures
        ids@ == slot_order(nodes_of(*store).dom()),
        ids@.no_duplicates(),
        forall|id: NodeId| ids@.contains(id) <==> nodes_of(*store).dom().contains(id),
{
    store.slots.keys().map(|key| NodeId { key }).collect()
}

/// A row of the tree view.
#[derive(Clone, Copy, Debug, PartialEq, Eq)]
pub struct VisibleNode {
    pub node_id: NodeId,
    pub depth: usize,
    pub matched: bool,
}

/// The nodes of a tree and which of them is the root.
pub struct Tree {
    pub nodes: NodeStore,
    pub root_id: NodeId,
}

pub struct TreeModel {
    pub nodes: Map<NodeId, NodeModel>,
    pub root: NodeId,
}

impl View for Tree {
    type V = TreeModel;

    open spec fn view(&self) -> TreeModel {
        TreeModel {
            nodes: nodes_of(self.nodes).map_values(|node: Node| node@),
            root: self.root_id,
        }
    }
}

/// Whether every node but the root hangs below its parent, one level deeper,
/// and every child knows its parent.
pub closed spec fn linked(tree: TreeModel, depth: Map<NodeId, nat>) -> bool {
    &&& tree.nodes.dom().finite()
    &&& depth.dom() == tree.nodes.dom()
    &&& tree.nodes.contains_key(tree.root)
    &&& tree.nodes[tree.root].parent is None
    &&& depth[tree.root] == 0
    &&& forall|id: NodeId| #[trigger]
        tree.nodes.contains_key(id) && id != tree.root ==> hangs(tree, depth, id)
    &&& forall|id: NodeId, i: int|
        #![trigger tree.nodes[id].children[i]]
        tree.nodes.contains_key(id) && 0 <= i < tree.nodes[id].children.len() ==> {
            &&& tree.nodes.contains_key(tree.nodes[id].children[i])
            &&& tree.nodes[tree.nodes[id].children[i]].parent == Some(id)
        }
    &&& forall|id: NodeId|
        tree.nodes.contains_key(id) ==> #[trigger] tree.nodes[id].children.no_duplicates()
}

pub closed spec fn hangs(tree: TreeModel, depth: Map<NodeId, nat>, id: NodeId) -> bool {
    match tree.nodes[id].parent {
        Some(parent) => {
            &&& tree.nodes.contains_key(parent)
            &&& depth[id] == depth[parent] + 1
            &&& tree.nodes[parent].children.contains(id)
        },
        None => false,
    }
}

/// The invariant of a tree: all nodes hang together below the root, without
/// cycles.
pub open spec fn is_tree(tree: TreeModel) -> bool {
    exists|depth: Map<NodeId, nat>| linked(tree, depth)
}

/// A node and its ancestors.
spec fn line(tree: TreeModel, id: NodeId, steps: nat) -> Set<NodeId>
    decreases steps,
{
    if steps == 0 {
        Set::empty().insert(id)
    } else {
        line(tree, tree.nodes[id].parent->0, (steps - 1) as nat).insert(id)
    }
}

proof fn lemma_line(tree: TreeModel, depth: Map<NodeId, nat>, id: NodeId)
    requires
        linked(tree, depth),
        tree.nodes.contains_key(id),
    ensures
        line(tree, id, depth[id]).finite(),
        line(tree, id, depth[id]).subset_of(tree.nodes.dom()),
        line(tree, id, depth[id]).len() == depth[id] + 1,
        forall|other: NodeId| #[trigger]
            line(tree, id, depth[id]).contains(other) ==> depth[other] <= depth[id],
    decreases depth[id],
{
    if depth[id] > 0 {
        assert(hangs(tree, depth, id));
        let parent = tree.nodes[id].parent->0;
        lemma_line(tree, depth, parent);
        assert(!line(tree, parent, depth[parent]).contains(id));
    }
}

/// A tree is not deeper than it has nodes.
proof fn lemma_depth(tree: TreeModel, depth: Map<NodeId, nat>, id: NodeId)
    requires
        linked(tree, depth),
        tree.nodes.contains_key(id),
    ensures
        depth[id] < tree.nodes.dom().len(),
{
    lemma_line(tree, depth, id);
    vstd::set_lib::lemma_len_subset(line(tree, id, depth[id]), tree.nodes.dom());
}

/// The tree with another node under the given name.
pub open spec fn with_node(tree: TreeModel, id: NodeId, node: NodeModel) -> TreeModel {
    TreeModel { nodes: tree.nodes.insert(id, node), ..tree }
}

/// Whether two trees have the same nodes with the same links.
pub open spec fn same_links(left: TreeModel, right: TreeModel) -> bool {
    &&& left.root == right.root
    &&& left.nodes.dom() == right.nodes.dom()
    &&& forall|id: NodeId| #[trigger]
        left.nodes.contains_key(id) ==> {
            &&& left.nodes[id].parent == right.nodes[id].parent
            &&& left.nodes[id].children == right.nodes[id].children
        }
}

/// What is not a link may change.
pub proof fn lemma_same_links(left: TreeModel, right: TreeModel)
    requires
        is_tree(left),
        same_links(left, right),
    ensures
        is_tree(right),
{
    let depth = choose|depth: Map<NodeId, nat>| linked(left, depth);
    assert forall|id: NodeId| #[trigger]
        right.nodes.contains_key(id) && id != right.root implies hangs(right, depth, id) by {
        assert(left.nodes.contains_key(id));
        assert(hangs(left, depth, id));
        assert(left.nodes.contains_key(left.nodes[id].parent->0));
    }
    assert forall|id: NodeId, i: int|
        #![trigger right.nodes[id].children[i]]
        right.nodes.contains_key(id) && 0 <= i < right.nodes[id].children.len() implies {
        &&& right.nodes.contains_key(right.nodes[id].children[i])
        &&& right.nodes[right.nodes[id].children[i]].parent == Some(id)
    } by {
        assert(left.nodes.contains_key(id));
        let child = left.nodes[id].children[i];
        assert(left.nodes.contains_key(child));
    }
    assert forall|id: NodeId| right.nodes.contains_key(id) implies #[trigger]
        right.nodes[id].children.no_duplicates() by {
        assert(left.nodes.contains_key(id));
        assert(left.nodes[id].children.no_duplicates());
    }
    assert(linked(right, depth));
}

/// The rows of the tree view for the given nodes and what is open below them.
/// A directory shows its children when it is expanded. `fuel` bounds the depth.
pub open spec fn rows_from(
    nodes: Map<NodeId, NodeModel>,
    ids: Seq<NodeId>,
    level: nat,
    fuel: nat,
) -> Seq<VisibleNode>
    decreases fuel, ids.len(),
{
    if fuel == 0 || ids.len() == 0 {
        Seq::empty()
    } else {
        rows_from(nodes, ids.drop_last(), level, fuel) + node_rows(nodes, ids.last(), level, fuel)
    }
}

pub open spec fn node_rows(
    nodes: Map<NodeId, NodeModel>,
    id: NodeId,
    level: nat,
    fuel: nat,
) -> Seq<VisibleNode>
    decreases fuel, 0nat,
{
    if fuel == 0 || !nodes.contains_key(id) {
        Seq::empty()
    } else {
        let row = VisibleNode { node_id: id, depth: level as usize, matched: false };
        if nodes[id].kind == NodeKind::Directory && nodes[id].expanded {
            seq![row] + rows_from(nodes, nodes[id].children, level + 1, (fuel - 1) as nat)
        } else {
            seq![row]
        }
    }
}

/// The rows of the tree view: all that is open below the root.
pub open spec fn visible_rows(tree: TreeModel) -> Seq<VisibleNode> {
    rows_from(tree.nodes, tree.nodes[tree.root].children, 0, tree.nodes.dom().len() + 1)
}

/// The rows of a filtered tree view: the admitted nodes and their ancestors,
/// whether expanded or not.
pub open spec fn admitted_from(
    nodes: Map<NodeId, NodeModel>,
    ids: Seq<NodeId>,
    level: nat,
    admits: spec_fn(NodeModel) -> bool,
    fuel: nat,
) -> Seq<VisibleNode>
    decreases fuel, ids.len(),
{
    if fuel == 0 || ids.len() == 0 {
        Seq::empty()
    } else {
        admitted_from(nodes, ids.drop_last(), level, admits, fuel) + admitted_rows(
            nodes,
            ids.last(),
            level,
            admits,
            fuel,
        )
    }
}

pub open spec fn admitted_rows(
    nodes: Map<NodeId, NodeModel>,
    id: NodeId,
    level: nat,
    admits: spec_fn(NodeModel) -> bool,
    fuel: nat,
) -> Seq<VisibleNode>
    decreases fuel, 0nat,
{
    if fuel == 0 || !nodes.contains_key(id) {
        Seq::empty()
    } else {
        let below = admitted_from(
            nodes,
            nodes[id].children,
            level + 1,
            admits,
            (fuel - 1) as nat,
        );
        let matched = admits(nodes[id]);
        if matched || below.len() > 0 {
            seq![VisibleNode { node_id: id, depth: level as usize, matched }] + below
        } else {
            Seq::empty()
        }
    }
}

/// The rows of the tree view under a filter.
pub open spec fn admitted_view(tree: TreeModel, admits: spec_fn(NodeModel) -> bool) -> Seq<
    VisibleNode,
> {
    admitted_from(
        tree.nodes,
        tree.nodes[tree.root].children,
        0,
        admits,
        tree.nodes.dom().len() + 1,
    )
}

/// The given nodes with all that is below them, each node before its children.
pub open spec fn preorder_from(nodes: Map<NodeId, NodeModel>, ids: Seq<NodeId>, fuel: nat) -> Seq<
    NodeId,
>
    decreases fuel, ids.len(),
{
    if fuel == 0 || ids.len() == 0 {
        Seq::empty()
    } else {
        preorder_from(nodes, ids.drop_last(), fuel) + preorder(nodes, ids.last(), fuel)
    }
}

pub open spec fn preorder(nodes: Map<NodeId, NodeModel>, id: NodeId, fuel: nat) -> Seq<NodeId>
    decreases fuel, 0nat,
{
    if fuel == 0 || !nodes.contains_key(id) {
        Seq::empty()
    } else {
        seq![id] + preorder_from(nodes, nodes[id].children, (fuel - 1) as nat)
    }
}

/// All nodes below the root, each before its children.
pub open spec fn loaded_ids(tree: TreeModel) -> Seq<NodeId> {
    preorder_from(tree.nodes, tree.nodes[tree.root].children, tree.nodes.dom().len() + 1)
}

/// The given nodes with all that is below them, each node after its children.
pub open spec fn postorder_from(nodes: Map<NodeId, NodeModel>, ids: Seq<NodeId>, fuel: nat) -> Seq<
    NodeId,
>
    decreases fuel, ids.len(),
{
    if fuel == 0 || ids.len() == 0 {
        Seq::empty()
    } else {
        postorder_from(nodes, ids.drop_last(), fuel) + postorder(nodes, ids.last(), fuel)
    }
}

pub open spec fn postorder(nodes: Map<NodeId, NodeModel>, id: NodeId, fuel: nat) -> Seq<NodeId>
    decreases fuel, 0nat,
{
    if fuel == 0 || !nodes.contains_key(id) {
        Seq::empty()
    } else {
        postorder_from(nodes, nodes[id].children, (fuel - 1) as nat).push(id)
    }
}

/// A node with all that is below it, each after its children.
pub open spec fn subtree_ids(tree: TreeModel, id: NodeId) -> Seq<NodeId> {
    postorder(tree.nodes, id, tree.nodes.dom().len() + 1)
}

/// The nodes other than the given one.
pub open spec fn other_than(id: NodeId) -> spec_fn(NodeId) -> bool {
    |other: NodeId| other != id
}

/// The tree without a node and all that is below it. The root stays.
pub open spec fn without_subtree(tree: TreeModel, id: NodeId) -> TreeModel {
    if id == tree.root || !tree.nodes.contains_key(id) {
        tree
    } else {
        let gone = subtree_ids(tree, id);
        let parent = tree.nodes[id].parent->0;
        let cut = NodeModel {
            children: tree.nodes[parent].children.filter(other_than(id)),
            ..tree.nodes[parent]
        };
        TreeModel { nodes: tree.nodes.insert(parent, cut).remove_keys(gone.to_set()), ..tree }
    }
}

/// What `remove_subtree` gives back.
pub open spec fn removed_ids(tree: TreeModel, id: NodeId) -> Seq<NodeId> {
    if id == tree.root || !tree.nodes.contains_key(id) {
        Seq::empty()
    } else {
        subtree_ids(tree, id)
    }
}

/// The ancestors of a node, nearest first.
pub open spec fn ancestors(nodes: Map<NodeId, NodeModel>, id: NodeId, fuel: nat) -> Seq<NodeId>
    decreases fuel,
{
    if fuel == 0 || !nodes.contains_key(id) {
        Seq::empty()
    } else {
        match nodes[id].parent {
            Some(parent) => seq![parent] + ancestors(nodes, parent, (fuel - 1) as nat),
            None => Seq::empty(),
        }
    }
}

/// The ancestors of a node, nearest first.
pub open spec fn ancestor_ids(tree: TreeModel, id: NodeId) -> Seq<NodeId> {
    ancestors(tree.nodes, id, tree.nodes.dom().len() + 1)
}

/// The tree with all ancestors of a node expanded.
pub open spec fn opened_to(tree: TreeModel, id: NodeId) -> TreeModel {
    TreeModel {
        nodes: Map::new(
            |k: NodeId| tree.nodes.contains_key(k),
            |k: NodeId|
                if ancestor_ids(tree, id).contains(k) {
                    NodeModel { expanded: true, ..tree.nodes[k] }
                } else {
                    tree.nodes[k]
                },
        ),
        ..tree
    }
}

/// The tree that holds only its root.
pub open spec fn only_root(path: FilePath, id: NodeId) -> TreeModel {
    TreeModel { nodes: Map::empty().insert(id, NodeModel::for_root(path)), root: id }
}

proof fn lemma_only_root(path: FilePath, id: NodeId)
    ensures
        is_tree(only_root(path, id)),
{
    let depth: Map<NodeId, nat> = Map::empty().insert(id, 0);
    assert(depth.dom() =~= only_root(path, id).nodes.dom());
    assert(linked(only_root(path, id), depth));
}

/// The tree with a new last child of a node.
pub open spec fn with_child(tree: TreeModel, parent: NodeId, id: NodeId, node: NodeModel) -> TreeModel {
    let grown = NodeModel {
        children: tree.nodes[parent].children.push(id),
        ..tree.nodes[parent]
    };
    TreeModel { nodes: tree.nodes.insert(id, node).insert(parent, grown), ..tree }
}

/// A new child without children of its own keeps the links in order.
pub proof fn lemma_with_child(tree: TreeModel, parent: NodeId, id: NodeId, node: NodeModel)
    requires
        is_tree(tree),
        tree.nodes.contains_key(parent),
        !tree.nodes.contains_key(id),
        node.parent == Some(parent),
        node.children.len() == 0,
    ensures
        is_tree(with_child(tree, parent, id, node)),
{
    let after = with_child(tree, parent, id, node);
    let before = choose|depth: Map<NodeId, nat>| linked(tree, depth);
    let depth = before.insert(id, before[parent] + 1);
    let children = tree.nodes[parent].children;
    assert(depth.dom() =~= after.nodes.dom());
    assert(children.push(id)[children.len() as int] == id);
    assert forall|k: NodeId| #[trigger]
        after.nodes.contains_key(k) && k != after.root implies hangs(after, depth, k) by {
        if k != id {
            assert(tree.nodes.contains_key(k));
            assert(hangs(tree, before, k));
            let above = tree.nodes[k].parent->0;
            if above == parent {
                let i = choose|i: int| 0 <= i < children.len() && children[i] == k;
                assert(children.push(id)[i] == k);
            }
        }
    }
    assert forall|k: NodeId, i: int|
        #![trigger after.nodes[k].children[i]]
        after.nodes.contains_key(k) && 0 <= i < after.nodes[k].children.len() implies {
        &&& after.nodes.contains_key(after.nodes[k].children[i])
        &&& after.nodes[after.nodes[k].children[i]].parent == Some(k)
    } by {
        if k != id && !(k == parent && i == children.len()) {
            assert(tree.nodes.contains_key(k));
            let child = tree.nodes[k].children[i];
            assert(tree.nodes.contains_key(child));
        }
    }
    assert forall|k: NodeId| after.nodes.contains_key(k) implies #[trigger]
        after.nodes[k].children.no_duplicates() by {
        if k == parent {
            assert(!children.contains(id)) by {
                if children.contains(id) {
                    let i = choose|i: int| 0 <= i < children.len() && children[i] == id;
                    assert(tree.nodes.contains_key(tree.nodes[parent].children[i]));
                }
            }
            assert(tree.nodes[parent].children.no_duplicates());
        } else if k != id {
            assert(tree.nodes[k].children.no_duplicates());
        }
    }
    assert(linked(after, depth));
}

impl Tree {
    /// A tree that holds only its root.
    pub fn new(root: FilePath) -> (tree: Tree)
        ensures
            tree@ == only_root(root, tree.root_id),
            is_tree(tree@),
    {
        let mut nodes = new_store();
        let root_id = store_insert(&mut nodes, Node::root(root));
        let tree = Tree { nodes, root_id };
        proof {
            assert(tree@.nodes =~= only_root(root, root_id).nodes);
            lemma_only_root(root, root_id);
        }
        tree
    }

    /// The number of nodes.
    pub fn len(&self) -> (count: usize)
        ensures
            count == self@.nodes.dom().len(),
    {
        assert(nodes_of(self.nodes).dom() =~= self@.nodes.dom());
        store_len(&self.nodes)
    }

    pub fn get(&self, id: NodeId) -> (node: Option<&Node>)
        ensures
            match node {
                Some(node) => self@.nodes.contains_key(id) && node@ == self@.nodes[id],
                None => !self@.nodes.contains_key(id),
            },
    {
        store_get(&self.nodes, id)
    }

    pub fn contains_key(&self, id: NodeId) -> (result: bool)
        ensures
            result == self@.nodes.contains_key(id),
    {
        store_get(&self.nodes, id).is_some()
    }

    /// The names of all nodes, in the order of the arena.
    pub fn ids(&self) -> (ids: Vec<NodeId>)
        ensures
            ids@ == slot_order(self@.nodes.dom()),
            ids@.no_duplicates(),
            forall|id: NodeId| ids@.contains(id) <==> self@.nodes.contains_key(id),
    {
        let ids = store_ids(&self.nodes);
        assert(nodes_of(self.nodes).dom() =~= self@.nodes.dom());
        ids
    }

    /// A node, to be changed in place.
    pub(crate) fn node_mut(&mut self, id: NodeId) -> (node: &mut Node)
        requires
            old(self)@.nodes.contains_key(id),
        ensures
            (*node)@ == old(self)@.nodes[id],
            final(self)@ == with_node(old(self)@, id, (*final(node))@),
    {
        let ghost before = nodes_of(self.nodes);
        let node = store_get_mut(&mut self.nodes, id);
        proof {
            assert(before.insert(id, *final(node)).map_values(|n: Node| n@)
                =~= before.map_values(|n: Node| n@).insert(id, (*final(node))@));
        }
        node
    }

    /// Adds an entry as the last child of a node.
    pub fn add_child(&mut self, parent: NodeId, entry: DiscoveredEntry) -> (child: Option<NodeId>)
        requires
            is_tree(old(self)@),
            old(self)@.nodes.dom().len() < NODE_LIMIT,
        ensures
            is_tree(final(self)@),
            match child {
                Some(id) => {
                    &&& old(self)@.nodes.contains_key(parent)
                    &&& !old(self)@.nodes.contains_key(id)
                    &&& final(self)@ == with_child(
                        old(self)@,
                        parent,
                        id,
                        NodeModel::for_entry(entry, parent),
                    )
                },
                None => !old(self)@.nodes.contains_key(parent) && final(self)@ == old(self)@,
            },
    {
        if !self.contains_key(parent) {
            return None;
        }
        let ghost before = self@;
        let ghost stored = nodes_of(self.nodes);
        let node = Node::from_entry(entry, parent);
        assert(nodes_of(self.nodes).dom() =~= self@.nodes.dom());
        let child = store_insert(&mut self.nodes, node);
        assert(self@.nodes =~= before.nodes.insert(child, node@));
        let parent_node = self.node_mut(parent);
        parent_node.children.push(child);
        proof {
            assert(self@.nodes =~= with_child(before, parent, child, node@).nodes);
            lemma_with_child(before, parent, child, node@);
        }
        Some(child)
    }
}

fn append_rows(rows: &mut Vec<VisibleNode>, more: &Vec<VisibleNode>)
    ensures
        final(rows)@ == old(rows)@ + more@,
{
    let ghost before = rows@;
    let mut i: usize = 0;
    assert(before + more@.take(0) =~= before);
    while i < more.len()
        invariant
            i <= more@.len(),
            rows@ == before + more@.take(i as int),
        decreases more@.len() - i,
    {
        rows.push(more[i]);
        i += 1;
        assert(rows@ =~= before + more@.take(i as int));
    }
    assert(more@.take(i as int) =~= more@);
}

impl Tree {
    /// The rows of the tree view: all that is open below the root.
    pub fn flatten_visible(&self) -> (rows: Vec<VisibleNode>)
        requires
            is_tree(self@),
        ensures
            rows@ == visible_rows(self@),
    {
        let ghost depth = choose|depth: Map<NodeId, nat>| linked(self@, depth);
        let ghost fuel: nat = self@.nodes.dom().len() + 1;
        let limit: usize = self.len();
        let mut rows: Vec<VisibleNode> = Vec::new();
        if let Some(root) = self.get(self.root_id) {
            let ghost ids = root.children@;
            let mut i: usize = 0;
            while i < root.children.len()
                invariant
                    i <= root.children@.len(),
                    root.children@ == ids,
                    ids == self@.nodes[self.root_id].children,
                    limit == self@.nodes.dom().len(),
                    fuel == limit + 1,
                    linked(self@, depth),
                    rows@ == rows_from(self@.nodes, ids.take(i as int), 0, fuel),
                decreases root.children@.len() - i,
            {
                let child: NodeId = root.children[i];
                proof {
                    assert(self@.nodes.contains_key(self@.nodes[self.root_id].children[i as int]));
                    assert(hangs(self@, depth, child));
                    assert(ids.take(i + 1).drop_last() =~= ids.take(i as int));
                }
                self.flatten_from(child, 0, &mut rows, limit, Ghost(fuel), Ghost(depth));
                i += 1;
            }
            assert(ids.take(i as int) =~= ids);
        }
        rows
    }

    fn flatten_from(
        &self,
        node_id: NodeId,
        level: usize,
        output: &mut Vec<VisibleNode>,
        limit: usize,
        Ghost(fuel): Ghost<nat>,
        Ghost(depth): Ghost<Map<NodeId, nat>>,
    )
        requires
            linked(self@, depth),
            self@.nodes.contains_key(node_id),
            depth[node_id] == level + 1,
            limit == self@.nodes.dom().len(),
            fuel + level == limit + 1,
        ensures
            final(output)@ == old(output)@ + node_rows(self@.nodes, node_id, level as nat, fuel),
        decreases fuel,
    {
        proof {
            lemma_depth(self@, depth, node_id);
        }
        let node = match self.get(node_id) {
            Some(node) => node,
            None => {
                return ;
            },
        };
        let ghost start = output@;
        output.push(VisibleNode { node_id, depth: level, matched: false });
        let ghost with_row = output@;
        if node.kind == NodeKind::Directory && node.expanded {
            let ghost ids = node.children@;
            let mut i: usize = 0;
            assert(with_row + rows_from(
                self@.nodes,
                ids.take(0),
                level as nat + 1,
                (fuel - 1) as nat,
            ) =~= with_row);
            while i < node.children.len()
                invariant
                    i <= node.children@.len(),
                    node.children@ == ids,
                    self@.nodes.contains_key(node_id),
                    ids == self@.nodes[node_id].children,
                    linked(self@, depth),
                    depth[node_id] == level + 1,
                    depth[node_id] < limit,
                    limit == self@.nodes.dom().len(),
                    fuel + level == limit + 1,
                    output@ == with_row + rows_from(
                        self@.nodes,
                        ids.take(i as int),
                        level as nat + 1,
                        (fuel - 1) as nat,
                    ),
                decreases node.children@.len() - i,
            {
                let child: NodeId = node.children[i];
                proof {
                    assert(self@.nodes.contains_key(self@.nodes[node_id].children[i as int]));
                    assert(hangs(self@, depth, child));
                    assert(ids.take(i + 1).drop_last() =~= ids.take(i as int));
                }
                self.flatten_from(
                    child,
                    level + 1,
                    output,
                    limit,
                    Ghost((fuel - 1) as nat),
                    Ghost(depth),
                );
                i += 1;
                assert(output@ =~= with_row + rows_from(
                    self@.nodes,
                    ids.take(i as int),
                    level as nat + 1,
                    (fuel - 1) as nat,
                ));
            }
            assert(ids.take(i as int) =~= ids);
        }
        assert(output@ =~= start + node_rows(self@.nodes, node_id, level as nat, fuel));
    }

    /// The rows of the tree view under a rule.
    pub fn flatten_visible_matching(&self, rule: &NodeRule) -> (rows: Vec<VisibleNode>)
        requires
            is_tree(self@),
        ensures
            rows@ == match rule {
                NodeRule::Everything => visible_rows(self@),
                _ => admitted_view(self@, rule.admits()),
            },
    {
        if let NodeRule::Everything = rule {
            return self.flatten_visible();
        }
        let ghost depth = choose|depth: Map<NodeId, nat>| linked(self@, depth);
        let ghost fuel: nat = self@.nodes.dom().len() + 1;
        let limit: usize = self.len();
        let mut rows: Vec<VisibleNode> = Vec::new();
        if let Some(root) = self.get(self.root_id) {
            let ghost ids = root.children@;
            let mut i: usize = 0;
            while i < root.children.len()
                invariant
                    i <= root.children@.len(),
                    root.children@ == ids,
                    ids == self@.nodes[self.root_id].children,
                    limit == self@.nodes.dom().len(),
                    fuel == limit + 1,
                    linked(self@, depth),
                    rows@ == admitted_from(
                        self@.nodes,
                        ids.take(i as int),
                        0,
                        rule.admits(),
                        fuel,
                    ),
                decreases root.children@.len() - i,
            {
                let child: NodeId = root.children[i];
                proof {
                    assert(self@.nodes.contains_key(self@.nodes[self.root_id].children[i as int]));
                    assert(hangs(self@, depth, child));
                    assert(ids.take(i + 1).drop_last() =~= ids.take(i as int));
                }
                let below = self.admitted_below(child, 0, rule, limit, Ghost(fuel), Ghost(depth));
                append_rows(&mut rows, &below);
                i += 1;
            }
            assert(ids.take(i as int) =~= ids);
        }
        rows
    }

    fn admitted_below(
        &self,
        node_id: NodeId,
        level: usize,
        rule: &NodeRule,
        limit: usize,
        Ghost(fuel): Ghost<nat>,
        Ghost(depth): Ghost<Map<NodeId, nat>>,
    ) -> (rows: Vec<VisibleNode>)
        requires
            linked(self@, depth),
            self@.nodes.contains_key(node_id),
            depth[node_id] == level + 1,
            limit == self@.nodes.dom().len(),
            fuel + level == limit + 1,
        ensures
            rows@ == admitted_rows(self@.nodes, node_id, level as nat, rule.admits(), fuel),
        decreases fuel,
    {
        proof {
            lemma_depth(self@, depth, node_id);
        }
        let mut rows: Vec<VisibleNode> = Vec::new();
        let node = match self.get(node_id) {
            Some(node) => node,
            None => {
                return rows;
            },
        };
        let matched: bool = rule.admits_node(node);
        let row = VisibleNode { node_id, depth: level, matched };
        rows.push(row);
        let ghost with_row = rows@;
        let ghost ids = node.children@;
        let mut i: usize = 0;
        assert(with_row + admitted_from(
            self@.nodes,
            ids.take(0),
            level as nat + 1,
            rule.admits(),
            (fuel - 1) as nat,
        ) =~= with_row);
        while i < node.children.len()
            invariant
                i <= node.children@.len(),
                node.children@ == ids,
                self@.nodes.contains_key(node_id),
                ids == self@.nodes[node_id].children,
                linked(self@, depth),
                depth[node_id] == level + 1,
                depth[node_id] < limit,
                limit == self@.nodes.dom().len(),
                fuel + level == limit + 1,
                rows@ == with_row + admitted_from(
                    self@.nodes,
                    ids.take(i as int),
                    level as nat + 1,
                    rule.admits(),
                    (fuel - 1) as nat,
                ),
            decreases node.children@.len() - i,
        {
            let child: NodeId = node.children[i];
            proof {
                assert(self@.nodes.contains_key(self@.nodes[node_id].children[i as int]));
                assert(hangs(self@, depth, child));
                assert(ids.take(i + 1).drop_last() =~= ids.take(i as int));
            }
            let below = self.admitted_below(
                child,
                level + 1,
                rule,
                limit,
                Ghost((fuel - 1) as nat),
                Ghost(depth),
            );
            append_rows(&mut rows, &below);
            i += 1;
            assert(rows@ =~= with_row + admitted_from(
                self@.nodes,
                ids.take(i as int),
                level as nat + 1,
                rule.admits(),
                (fuel - 1) as nat,
            ));
        }
        assert(ids.take(i as int) =~= ids);
        if !matched && rows.len() == 1 {
            let none: Vec<VisibleNode> = Vec::new();
            assert(none@ =~= Seq::empty());
            return none;
        }
        rows
    }

    /// The rows of the tree view whose name contains a query, or all that is
    /// open where there is none.
    pub fn flatten_visible_filtered(&self, query: Option<&str>) -> (rows: Vec<VisibleNode>)
        requires
            is_tree(self@),
        ensures
            rows@ == match query {
                None => visible_rows(self@),
                Some(query) => admitted_view(self@, filter::named(query@)),
            },
    {
        match query {
            None => self.flatten_visible(),
            Some(query) => self.flatten_visible_matching(&NodeRule::Named(query)),
        }
    }

    /// All nodes below the root, each before its children.
    pub fn all_loaded(&self) -> (ids: Vec<NodeId>)
        requires
            is_tree(self@),
        ensures
            ids@ == loaded_ids(self@),
    {
        let ghost depth = choose|depth: Map<NodeId, nat>| linked(self@, depth);
        let ghost fuel: nat = self@.nodes.dom().len() + 1;
        let mut loaded: Vec<NodeId> = Vec::new();
        if let Some(root) = self.get(self.root_id) {
            let ghost ids = root.children@;
            let mut i: usize = 0;
            while i < root.children.len()
                invariant
                    i <= root.children@.len(),
                    root.children@ == ids,
                    ids == self@.nodes[self.root_id].children,
                    fuel == self@.nodes.dom().len() + 1,
                    linked(self@, depth),
                    loaded@ == preorder_from(self@.nodes, ids.take(i as int), fuel),
                decreases root.children@.len() - i,
            {
                let child: NodeId = root.children[i];
                proof {
                    assert(self@.nodes.contains_key(self@.nodes[self.root_id].children[i as int]));
                    assert(hangs(self@, depth, child));
                    assert(ids.take(i + 1).drop_last() =~= ids.take(i as int));
                }
                self.collect_from(child, &mut loaded, Ghost(fuel), Ghost(depth));
                i += 1;
            }
            assert(ids.take(i as int) =~= ids);
        }
        loaded
    }

    fn collect_from(
        &self,
        node_id: NodeId,
        output: &mut Vec<NodeId>,
        Ghost(fuel): Ghost<nat>,
        Ghost(depth): Ghost<Map<NodeId, nat>>,
    )
        requires
            linked(self@, depth),
            self@.nodes.contains_key(node_id),
            fuel + depth[node_id] > self@.nodes.dom().len(),
        ensures
            final(output)@ == old(output)@ + preorder(self@.nodes, node_id, fuel),
        decreases fuel,
    {
        proof {
            lemma_depth(self@, depth, node_id);
        }
        let node = match self.get(node_id) {
            Some(node) => node,
            None => {
                return ;
            },
        };
        let ghost start = output@;
        output.push(node_id);
        let ghost with_row = output@;
        let ghost ids = node.children@;
        let mut i: usize = 0;
        assert(with_row + preorder_from(self@.nodes, ids.take(0), (fuel - 1) as nat) =~= with_row);
        while i < node.children.len()
            invariant
                i <= node.children@.len(),
                node.children@ == ids,
                self@.nodes.contains_key(node_id),
                ids == self@.nodes[node_id].children,
                linked(self@, depth),
                fuel > 0,
                fuel + depth[node_id] > self@.nodes.dom().len(),
                output@ == with_row + preorder_from(
                    self@.nodes,
                    ids.take(i as int),
                    (fuel - 1) as nat,
                ),
            decreases node.children@.len() - i,
        {
            let child: NodeId = node.children[i];
            proof {
                assert(self@.nodes.contains_key(self@.nodes[node_id].children[i as int]));
                assert(hangs(self@, depth, child));
                lemma_depth(self@, depth, child);
                assert(ids.take(i + 1).drop_last() =~= ids.take(i as int));
            }
            self.collect_from(child, output, Ghost((fuel - 1) as nat), Ghost(depth));
            i += 1;
            assert(output@ =~= with_row + preorder_from(
                self@.nodes,
                ids.take(i as int),
                (fuel - 1) as nat,
            ));
        }
        assert(ids.take(i as int) =~= ids);
        assert(output@ =~= start + preorder(self@.nodes, node_id, fuel));
    }

    fn subtree_from(
        &self,
        node_id: NodeId,
        output: &mut Vec<NodeId>,
        Ghost(fuel): Ghost<nat>,
        Ghost(depth): Ghost<Map<NodeId, nat>>,
    )
        requires
            linked(self@, depth),
            self@.nodes.contains_key(node_id),
            fuel + depth[node_id] > self@.nodes.dom().len(),
        ensures
            final(output)@ == old(output)@ + postorder(self@.nodes, node_id, fuel),
        decreases fuel,
    {
        proof {
            lemma_depth(self@, depth, node_id);
        }
        let node = match self.get(node_id) {
            Some(node) => node,
            None => {
                return ;
            },
        };
        let ghost start = output@;
        let ghost ids = node.children@;
        let mut i: usize = 0;
        assert(start + postorder_from(self@.nodes, ids.take(0), (fuel - 1) as nat) =~= start);
        while i < node.children.len()
            invariant
                i <= node.children@.len(),
                node.children@ == ids,
                self@.nodes.contains_key(node_id),
                ids == self@.nodes[node_id].children,
                linked(self@, depth),
                fuel > 0,
                fuel + depth[node_id] > self@.nodes.dom().len(),
                output@ == start + postorder_from(
                    self@.nodes,
                    ids.take(i as int),
                    (fuel - 1) as nat,
                ),
            decreases node.children@.len() - i,
        {
            let child: NodeId = node.children[i];
            proof {
                assert(self@.nodes.contains_key(self@.nodes[node_id].children[i as int]));
                assert(hangs(self@, depth, child));
                lemma_depth(self@, depth, child);
                assert(ids.take(i + 1).drop_last() =~= ids.take(i as int));
            }
            self.subtree_from(child, output, Ghost((fuel - 1) as nat), Ghost(depth));
            i += 1;
            assert(output@ =~= start + postorder_from(
                self@.nodes,
                ids.take(i as int),
                (fuel - 1) as nat,
            ));
        }
        assert(ids.take(i as int) =~= ids);
        output.push(node_id);
        assert(output@ =~= start + postorder(self@.nodes, node_id, fuel));
    }
}

/// What is listed below some nodes is listed below one of them.
proof fn lemma_postorder_from(
    nodes: Map<NodeId, NodeModel>,
    ids: Seq<NodeId>,
    fuel: nat,
    id: NodeId,
)
    requires
        fuel > 0,
    ensures
        postorder_from(nodes, ids, fuel).contains(id) <==> exists|i: int|
            0 <= i < ids.len() && (#[trigger] postorder(nodes, ids[i], fuel)).contains(id),
    decreases ids.len(),
{
    if ids.len() > 0 {
        let head = ids.drop_last();
        lemma_postorder_from(nodes, head, fuel, id);
        let first = postorder_from(nodes, head, fuel);
        let second = postorder(nodes, ids.last(), fuel);
        if postorder_from(nodes, ids, fuel).contains(id) {
            let at = choose|at: int| 0 <= at < (first + second).len() && (first + second)[at] == id;
            if at < first.len() {
                assert(first[at] == id);
                let i = choose|i: int|
                    0 <= i < head.len() && (#[trigger] postorder(nodes, head[i], fuel)).contains(id);
                assert(postorder(nodes, ids[i], fuel).contains(id));
            } else {
                assert(second[at - first.len()] == id);
                assert(postorder(nodes, ids[ids.len() - 1], fuel).contains(id));
            }
        }
        if exists|i: int|
            0 <= i < ids.len() && (#[trigger] postorder(nodes, ids[i], fuel)).contains(id) {
            let i = choose|i: int|
                0 <= i < ids.len() && (#[trigger] postorder(nodes, ids[i], fuel)).contains(id);
            if i < head.len() {
                assert(postorder(nodes, head[i], fuel).contains(id));
                let at = choose|at: int| 0 <= at < first.len() && first[at] == id;
                assert((first + second)[at] == id);
            } else {
                let at = choose|at: int| 0 <= at < second.len() && second[at] == id;
                assert((first + second)[first.len() + at] == id);
            }
        }
    }
}

/// A subtree holds its top; the parent of every other node in it; and the
/// children of every node in it.
proof fn lemma_subtree(
    tree: TreeModel,
    depth: Map<NodeId, nat>,
    top: NodeId,
    fuel: nat,
    id: NodeId,
)
    requires
        linked(tree, depth),
        tree.nodes.contains_key(top),
        fuel + depth[top] > tree.nodes.dom().len(),
    ensures
        postorder(tree.nodes, top, fuel).contains(top),
        postorder(tree.nodes, top, fuel).contains(id) ==> {
            &&& tree.nodes.contains_key(id)
            &&& depth[id] >= depth[top]
            &&& id != top ==> tree.nodes[id].parent is Some && postorder(
                tree.nodes,
                top,
                fuel,
            ).contains(tree.nodes[id].parent->0)
            &&& forall|i: int|
                0 <= i < tree.nodes[id].children.len() ==> postorder(
                    tree.nodes,
                    top,
                    fuel,
                ).contains(#[trigger] tree.nodes[id].children[i])
        },
    decreases fuel,
{
    lemma_depth(tree, depth, top);
    let kids = tree.nodes[top].children;
    let less = (fuel - 1) as nat;
    let below = postorder_from(tree.nodes, kids, less);
    let all = postorder(tree.nodes, top, fuel);
    assert(all == below.push(top));
    assert(all[below.len() as int] == top);
    assert forall|k: NodeId| below.contains(k) implies all.contains(k) by {
        let at = choose|at: int| 0 <= at < below.len() && below[at] == k;
        assert(all[at] == k);
    }
    if all.contains(id) {
        if id == top {
            assert forall|i: int| 0 <= i < kids.len() implies all.contains(
                #[trigger] tree.nodes[id].children[i],
            ) by {
                let child = tree.nodes[top].children[i];
                assert(tree.nodes.contains_key(child));
                assert(hangs(tree, depth, child));
                lemma_depth(tree, depth, child);
                lemma_subtree(tree, depth, child, less, child);
                assert(postorder(tree.nodes, kids[i], less).contains(child));
                lemma_postorder_from(tree.nodes, kids, less, child);
            }
        } else {
            let at = choose|at: int| 0 <= at < all.len() && all[at] == id;
            assert(below[at] == id);
            assert(below.contains(id));
            if less == 0 {
                assert(below.len() == 0);
            }
            lemma_postorder_from(tree.nodes, kids, less, id);
            let i = choose|i: int|
                0 <= i < kids.len() && (#[trigger] postorder(tree.nodes, kids[i], less)).contains(
                    id,
                );
            let child = kids[i];
            assert(tree.nodes.contains_key(tree.nodes[top].children[i]));
            assert(hangs(tree, depth, child));
            lemma_subtree(tree, depth, child, less, id);
            let part = postorder(tree.nodes, child, less);
            assert forall|k: NodeId| part.contains(k) implies all.contains(k) by {
                lemma_postorder_from(tree.nodes, kids, less, k);
                assert(postorder(tree.nodes, kids[i], less).contains(k));
            }
            assert forall|j: int| 0 <= j < tree.nodes[id].children.len() implies all.contains(
                #[trigger] tree.nodes[id].children[j],
            ) by {
                assert(part.contains(tree.nodes[id].children[j]));
            }
        }
    }
}

/// Cutting off a subtree keeps the links in order.
pub proof fn lemma_without_subtree(tree: TreeModel, id: NodeId)
    requires
        is_tree(tree),
    ensures
        is_tree(without_subtree(tree, id)),
{
    if id != tree.root && tree.nodes.contains_key(id) {
        let before = choose|depth: Map<NodeId, nat>| linked(tree, depth);
        let after = without_subtree(tree, id);
        let gone = subtree_ids(tree, id);
        let fuel = tree.nodes.dom().len() + 1;
        assert(hangs(tree, before, id));
        let parent = tree.nodes[id].parent->0;
        let keep = other_than(id);
        let rest = tree.nodes[parent].children.filter(keep);
        let depth = before.remove_keys(gone.to_set());
        assert(depth.dom() =~= after.nodes.dom());
        lemma_subtree(tree, before, id, fuel, tree.root);
        lemma_subtree(tree, before, id, fuel, parent);
        assert(!gone.contains(tree.root));
        assert(!gone.contains(parent));
        assert forall|k: NodeId| #[trigger]
            after.nodes.contains_key(k) && k != after.root implies hangs(after, depth, k) by {
            assert(tree.nodes.contains_key(k));
            assert(hangs(tree, before, k));
            let above = tree.nodes[k].parent->0;
            assert(!gone.contains(k));
            assert(!gone.contains(above)) by {
                lemma_subtree(tree, before, id, fuel, above);
                let i = choose|i: int|
                    0 <= i < tree.nodes[above].children.len() && tree.nodes[above].children[i] == k;
                if gone.contains(above) {
                    assert(gone.contains(tree.nodes[above].children[i]));
                }
            }
            if above == parent {
                assert(k != id) by {
                    lemma_subtree(tree, before, id, fuel, id);
                }
                assert(rest.contains(k)) by {
                    let i = choose|i: int|
                        0 <= i < tree.nodes[parent].children.len()
                            && tree.nodes[parent].children[i] == k;
                    tree.nodes[parent].children.lemma_filter_contains(keep, i);
                }
            }
        }
        assert forall|k: NodeId, i: int|
            #![trigger after.nodes[k].children[i]]
            after.nodes.contains_key(k) && 0 <= i < after.nodes[k].children.len() implies {
            &&& after.nodes.contains_key(after.nodes[k].children[i])
            &&& after.nodes[after.nodes[k].children[i]].parent == Some(k)
        } by {
            assert(tree.nodes.contains_key(k));
            let child = after.nodes[k].children[i];
            if k == parent {
                assert(rest[i] == child);
                tree.nodes[parent].children.lemma_filter_contains_rev(keep, child);
                tree.nodes[parent].children.lemma_filter_pred(keep, i);
            }
            assert(tree.nodes[k].children.contains(child));
            let j = choose|j: int|
                0 <= j < tree.nodes[k].children.len() && tree.nodes[k].children[j] == child;
            assert(tree.nodes.contains_key(tree.nodes[k].children[j]));
            assert(!gone.contains(child)) by {
                lemma_subtree(tree, before, id, fuel, child);
            }
        }
        assert forall|k: NodeId| after.nodes.contains_key(k) implies #[trigger]
            after.nodes[k].children.no_duplicates() by {
            assert(tree.nodes[k].children.no_duplicates());
            if k == parent {
                lists::lemma_filter_no_duplicates(tree.nodes[parent].children, keep);
            }
        }
        assert(after.nodes.dom() =~= tree.nodes.dom().difference(gone.to_set()));
        assert(linked(after, depth));
    }
}

/// The children of a node without one of them.
fn without_child(children: &Vec<NodeId>, id: NodeId) -> (rest: Vec<NodeId>)
    ensures
        rest@ == children@.filter(other_than(id)),
{
    let mut rest: Vec<NodeId> = Vec::new();
    let mut i: usize = 0;
    proof {
        reveal(Seq::filter);
        assert(children@.take(0).filter(other_than(id)) =~= Seq::empty());
    }
    while i < children.len()
        invariant
            i <= children@.len(),
            rest@ == children@.take(i as int).filter(other_than(id)),
        decreases children@.len() - i,
    {
        proof {
            lists::lemma_filter_step(children@, other_than(id), i as int);
        }
        if children[i] != id {
            rest.push(children[i]);
        }
        i += 1;
    }
    assert(children@.take(i as int) =~= children@);
    rest
}

impl Tree {
    /// Removes a node with all that is below it, and tells which nodes are
    /// gone. The root stays.
    pub fn remove_subtree(&mut self, node_id: NodeId) -> (removed: Vec<NodeId>)
        requires
            is_tree(old(self)@),
        ensures
            is_tree(final(self)@),
            final(self)@ == without_subtree(old(self)@, node_id),
            removed@ == removed_ids(old(self)@, node_id),
    {
        let ghost before = self@;
        let ghost depth = choose|depth: Map<NodeId, nat>| linked(before, depth);
        let mut removed: Vec<NodeId> = Vec::new();
        if node_id == self.root_id {
            return removed;
        }
        let parent: NodeId = match self.get(node_id) {
            Some(node) => match node.parent {
                Some(parent) => parent,
                None => {
                    assert(hangs(before, depth, node_id));
                    return removed;
                },
            },
            None => {
                return removed;
            },
        };
        proof {
            assert(hangs(before, depth, node_id));
            lemma_without_subtree(before, node_id);
        }
        self.subtree_from(
            node_id,
            &mut removed,
            Ghost((before.nodes.dom().len() + 1) as nat),
            Ghost(depth),
        );
        assert(removed@ =~= subtree_ids(before, node_id));
        let parent_node = self.node_mut(parent);
        parent_node.children = without_child(&parent_node.children, node_id);
        let ghost cut = self@;
        let mut i: usize = 0;
        assert(cut.nodes.remove_keys(removed@.take(0).to_set()) =~= cut.nodes);
        while i < removed.len()
            invariant
                i <= removed@.len(),
                self.root_id == cut.root,
                self@.nodes == cut.nodes.remove_keys(removed@.take(i as int).to_set()),
            decreases removed@.len() - i,
        {
            let ghost stored = nodes_of(self.nodes);
            let ghost last = self@.nodes;
            store_remove(&mut self.nodes, removed[i]);
            proof {
                assert(self@.nodes =~= last.remove(removed@[i as int]));
                assert(removed@.take(i + 1) =~= removed@.take(i as int).push(removed@[i as int]));
                lists::lemma_push_contains(removed@.take(i as int), removed@[i as int]);
                assert(self@.nodes =~= cut.nodes.remove_keys(removed@.take(i + 1).to_set()));
            }
            i += 1;
        }
        assert(removed@.take(i as int) =~= removed@);
        removed
    }

    /// The ancestors of a node, nearest first.
    pub fn ancestors_of(&self, node_id: NodeId) -> (found: Vec<NodeId>)
        requires
            is_tree(self@),
        ensures
            found@ == ancestor_ids(self@, node_id),
            forall|id: NodeId| #[trigger] found@.contains(id) ==> self@.nodes.contains_key(id),
    {
        let ghost depth = choose|depth: Map<NodeId, nat>| linked(self@, depth);
        let ghost mut fuel: nat = self@.nodes.dom().len() + 1;
        let mut found: Vec<NodeId> = Vec::new();
        let mut current: NodeId = node_id;
        proof {
            if self@.nodes.contains_key(node_id) {
                lemma_depth(self@, depth, node_id);
            }
            assert(found@ + ancestors(self@.nodes, current, fuel) =~= ancestor_ids(self@, node_id));
        }
        loop
            invariant
                linked(self@, depth),
                self@.nodes.contains_key(current) ==> fuel > depth[current],
                fuel > 0,
                found@ + ancestors(self@.nodes, current, fuel) == ancestor_ids(self@, node_id),
                forall|id: NodeId| #[trigger] found@.contains(id) ==> self@.nodes.contains_key(id),
            ensures
                found@ == ancestor_ids(self@, node_id),
                forall|id: NodeId| #[trigger] found@.contains(id) ==> self@.nodes.contains_key(id),
            decreases fuel,
        {
            let parent: Option<NodeId> = match self.get(current) {
                Some(node) => node.parent,
                None => None,
            };
            match parent {
                Some(parent) => {
                    proof {
                        assert(hangs(self@, depth, current));
                        let rest = ancestors(self@.nodes, parent, (fuel - 1) as nat);
                        assert(found@ + (seq![parent] + rest) =~= found@.push(parent) + rest);
                        fuel = (fuel - 1) as nat;
                    }
                    proof {
                        lists::lemma_push_contains(found@, parent);
                    }
                    found.push(parent);
                    current = parent;
                },
                None => {
                    proof {
                        assert(ancestors(self@.nodes, current, fuel) =~= Seq::empty());
                        assert(found@ + Seq::<NodeId>::empty() =~= found@);
                    }
                    break ;
                },
            }
        }
        found
    }

    /// Expands all ancestors of a node.
    pub fn expand_ancestors(&mut self, node_id: NodeId)
        requires
            is_tree(old(self)@),
        ensures
            is_tree(final(self)@),
            final(self)@ == opened_to(old(self)@, node_id),
    {
        let ghost before = self@;
        let found = self.ancestors_of(node_id);
        let mut i: usize = 0;
        while i < found.len()
            invariant
                i <= found@.len(),
                found@ == ancestor_ids(before, node_id),
                forall|id: NodeId| #[trigger] found@.contains(id) ==> before.nodes.contains_key(id),
                self@.root == before.root,
                self@.nodes.dom() == before.nodes.dom(),
                forall|k: NodeId| #[trigger]
                    before.nodes.contains_key(k) ==> self@.nodes[k] == (if found@.take(
                        i as int,
                    ).contains(k) {
                        NodeModel { expanded: true, ..before.nodes[k] }
                    } else {
                        before.nodes[k]
                    }),
            decreases found@.len() - i,
        {
            let id: NodeId = found[i];
            assert(found@.contains(id));
            assert(before.nodes.contains_key(id));
            let ghost last = self@;
            let node = self.node_mut(id);
            node.expanded = true;
            proof {
                assert(self@.nodes.dom() =~= before.nodes.dom());
                let part = found@.take(i as int);
                assert(found@.take(i + 1) =~= part.push(id));
                lists::lemma_push_contains(part, id);
            }
            i += 1;
        }
        proof {
            assert(found@.take(i as int) =~= found@);
            assert(self@.nodes =~= opened_to(before, node_id).nodes);
            assert(same_links(before, self@));
            lemma_same_links(before, self@);
        }
    }
}

/// The sort key of a name: without regard to case, and by its bytes where two
/// names then agree.
pub open spec fn name_key(name: Seq<u8>) -> Seq<u64> {
    text::text_key(text::lowercase(text::lossy_text(name))) + path::bytes_key(name)
}

impl NodeModel {
    /// Pending nodes come first, then those of known size, then the others.
    pub open spec fn sort_category(self) -> u64 {
        if self.is_pending() {
            0
        } else if self.usage is Some {
            1
        } else {
            2
        }
    }

    /// The sort key by an amount: within the nodes of known size the amount
    /// decides, elsewhere the name.
    pub open spec fn amount_key(self, amount: u64, direction: SortDirection) -> Seq<u64> {
        let shown = if self.sort_category() == 1 {
            direction.directed(amount)
        } else {
            0
        };
        seq![self.sort_category(), shown] + name_key(self.name)
    }

    /// The sort key of a node among its siblings.
    pub open spec fn sort_key(self, sort: SortSpec, mode: SizeMode) -> Seq<u64> {
        match sort.key {
            SortKey::Size => self.amount_key(self.usage->0.amount(mode), sort.direction),
            SortKey::Files => self.amount_key(self.usage->0.files, sort.direction),
            SortKey::Name => sort.direction.directed_key(name_key(self.name)),
            SortKey::Kind => seq![sort.direction.directed(self.kind.rank())] + name_key(self.name),
        }
    }
}

impl Node {
    fn sort_category(&self) -> (category: u64)
        ensures
            category == self@.sort_category(),
    {
        match self.scan_state {
            ScanState::NotScanned | ScanState::Queued | ScanState::Scanning => 0,
            ScanState::Complete | ScanState::Error => if self.usage.is_some() {
                1
            } else {
                2
            },
        }
    }

    /// The sort key of the node among its siblings.
    pub fn sort_key(&self, sort: SortSpec, mode: SizeMode) -> (key: Vec<u64>)
        ensures
            key@ == self@.sort_key(sort, mode),
    {
        let shown = self.name.display();
        let lower = shown.to_lowercase();
        let mut name: Vec<u64> = Vec::new();
        text::push_text_key(&mut name, lower.as_str());
        path::push_bytes_key(&mut name, self.name.as_bytes());
        assert(name@ =~= name_key(self.name@));
        let mut key: Vec<u64> = Vec::new();
        match sort.key {
            SortKey::Name => {
                return sort.direction.direct_key(&name);
            },
            SortKey::Kind => {
                let rank: u64 = match self.kind {
                    NodeKind::File => 0,
                    NodeKind::Directory => 1,
                    NodeKind::Symlink => 2,
                    NodeKind::Other => 3,
                };
                key.push(sort.direction.direct(rank));
            },
            SortKey::Size | SortKey::Files => {
                let category = self.sort_category();
                key.push(category);
                match self.usage {
                    Some(usage) if category == 1 => {
                        let amount: u64 = if sort.key == SortKey::Size {
                            usage.size(mode)
                        } else {
                            usage.files
                        };
                        key.push(sort.direction.direct(amount));
                    },
                    _ => {
                        key.push(0);
                    },
                }
            },
        }
        key.append(&mut name);
        assert(key@ =~= self@.sort_key(sort, mode));
        key
    }
}

/// The sort keys of some nodes.
pub open spec fn child_keys(
    nodes: Map<NodeId, NodeModel>,
    children: Seq<NodeId>,
    sort: SortSpec,
    mode: SizeMode,
) -> Seq<Seq<u64>> {
    Seq::new(children.len(), |i: int| nodes[children[i]].sort_key(sort, mode))
}

/// A node with its children in order.
pub open spec fn sorted_node(
    nodes: Map<NodeId, NodeModel>,
    id: NodeId,
    sort: SortSpec,
    mode: SizeMode,
) -> NodeModel {
    NodeModel {
        children: order::sorted_by(
            nodes[id].children,
            child_keys(nodes, nodes[id].children, sort, mode),
        ),
        ..nodes[id]
    }
}

/// The tree with the children of one node in order.
pub open spec fn sorted_below(
    tree: TreeModel,
    id: NodeId,
    sort: SortSpec,
    mode: SizeMode,
) -> TreeModel {
    if tree.nodes.contains_key(id) {
        with_node(tree, id, sorted_node(tree.nodes, id, sort, mode))
    } else {
        tree
    }
}

/// The tree with the children of all nodes in order.
pub open spec fn sorted_tree(tree: TreeModel, sort: SortSpec, mode: SizeMode) -> TreeModel {
    TreeModel {
        nodes: Map::new(
            |id: NodeId| tree.nodes.contains_key(id),
            |id: NodeId| sorted_node(tree.nodes, id, sort, mode),
        ),
        ..tree
    }
}

/// Children may change their order.
proof fn lemma_reordered(tree: TreeModel, id: NodeId, node: NodeModel)
    requires
        is_tree(tree),
        tree.nodes.contains_key(id),
        node.parent == tree.nodes[id].parent,
        forall|child: NodeId| #[trigger]
            node.children.contains(child) <==> tree.nodes[id].children.contains(child),
        node.children.no_duplicates(),
    ensures
        is_tree(with_node(tree, id, node)),
{
    let after = with_node(tree, id, node);
    let depth = choose|depth: Map<NodeId, nat>| linked(tree, depth);
    assert(depth.dom() =~= after.nodes.dom());
    assert(after.nodes.dom() =~= tree.nodes.dom());
    assert forall|k: NodeId| #[trigger]
        after.nodes.contains_key(k) && k != after.root implies hangs(after, depth, k) by {
        assert(tree.nodes.contains_key(k));
        assert(hangs(tree, depth, k));
        if tree.nodes[k].parent == Some(id) {
            assert(tree.nodes[id].children.contains(k));
            assert(node.children.contains(k));
        }
    }
    assert forall|k: NodeId, i: int|
        #![trigger after.nodes[k].children[i]]
        after.nodes.contains_key(k) && 0 <= i < after.nodes[k].children.len() implies {
        &&& after.nodes.contains_key(after.nodes[k].children[i])
        &&& after.nodes[after.nodes[k].children[i]].parent == Some(k)
    } by {
        let child = after.nodes[k].children[i];
        assert(tree.nodes.contains_key(k));
        assert(after.nodes[k].children.contains(child));
        assert(tree.nodes[k].children.contains(child));
        let j = choose|j: int|
            0 <= j < tree.nodes[k].children.len() && tree.nodes[k].children[j] == child;
        assert(tree.nodes.contains_key(tree.nodes[k].children[j]));
    }
    assert forall|k: NodeId| after.nodes.contains_key(k) implies #[trigger]
        after.nodes[k].children.no_duplicates() by {
        assert(tree.nodes[k].children.no_duplicates());
    }
    assert(linked(after, depth));
}

impl Tree {
    /// Puts the children of a node in order.
    pub fn sort_children(&mut self, parent: NodeId, sort: SortSpec, mode: SizeMode)
        requires
            is_tree(old(self)@),
        ensures
            is_tree(final(self)@),
            final(self)@ == sorted_below(old(self)@, parent, sort, mode),
    {
        let ghost before = self@;
        let ghost depth = choose|depth: Map<NodeId, nat>| linked(before, depth);
        let mut keys: Vec<Vec<u64>> = Vec::new();
        let mut children: Vec<NodeId> = Vec::new();
        match self.get(parent) {
            Some(node) => {
                let ghost ids = node.children@;
                let mut i: usize = 0;
                while i < node.children.len()
                    invariant
                        i <= node.children@.len(),
                        self@ == before,
                        linked(before, depth),
                        before.nodes.contains_key(parent),
                        node.children@ == ids,
                        ids == before.nodes[parent].children,
                        children@ == ids.take(i as int),
                        keys@.len() == i,
                        order::contents(keys@) == child_keys(
                            before.nodes,
                            ids.take(i as int),
                            sort,
                            mode,
                        ),
                    decreases node.children@.len() - i,
                {
                    let id: NodeId = node.children[i];
                    assert(before.nodes.contains_key(before.nodes[parent].children[i as int]));
                    let ghost last = keys@;
                    if let Some(child) = self.get(id) {
                        children.push(id);
                        keys.push(child.sort_key(sort, mode));
                        assert(children@ =~= ids.take(i + 1));
                        assert(order::contents(keys@) =~= child_keys(
                            before.nodes,
                            ids.take(i + 1),
                            sort,
                            mode,
                        )) by {
                            assert forall|k: int| 0 <= k < i + 1 implies order::contents(keys@)[k]
                                == child_keys(before.nodes, ids.take(i + 1), sort, mode)[k] by {
                                if k < i {
                                    assert(order::contents(last)[k] == child_keys(
                                        before.nodes,
                                        ids.take(i as int),
                                        sort,
                                        mode,
                                    )[k]);
                                }
                            }
                        }
                    }
                    i += 1;
                }
                assert(ids.take(i as int) =~= ids);
            },
            None => {
                return ;
            },
        }
        let ghost all = children@;
        let ghost count = children.len();
        let sorted = order::sort_by_keys(children, &keys);
        proof {
            order::sorting_keeps_the_items(all, order::contents(keys@));
            assert(before.nodes[parent].children.no_duplicates());
        }
        let node = self.node_mut(parent);
        node.children = sorted;
        proof {
            let after = sorted_node(before.nodes, parent, sort, mode);
            assert(after.children == sorted@);
            lemma_reordered(before, parent, after);
        }
    }

    /// Puts the children of all nodes in order.
    pub fn sort_all_loaded(&mut self, sort: SortSpec, mode: SizeMode)
        requires
            is_tree(old(self)@),
        ensures
            is_tree(final(self)@),
            final(self)@ == sorted_tree(old(self)@, sort, mode),
    {
        let ghost before = self@;
        let parents = self.ids();
        let mut i: usize = 0;
        while i < parents.len()
            invariant
                i <= parents@.len(),
                parents@.no_duplicates(),
                forall|id: NodeId|
                    parents@.contains(id) <==> #[trigger] before.nodes.contains_key(id),
                is_tree(before),
                is_tree(self@),
                self@.root == before.root,
                self@.nodes.dom() == before.nodes.dom(),
                forall|id: NodeId| #[trigger]
                    before.nodes.contains_key(id) ==> self@.nodes[id] == (if parents@.take(
                        i as int,
                    ).contains(id) {
                        sorted_node(before.nodes, id, sort, mode)
                    } else {
                        before.nodes[id]
                    }),
            decreases parents@.len() - i,
        {
            let id: NodeId = parents[i];
            let ghost last = self@;
            proof {
                assert(parents@.contains(id));
                assert(before.nodes.contains_key(id));
                assert(!parents@.take(i as int).contains(id)) by {
                    if parents@.take(i as int).contains(id) {
                        let j = choose|j: int|
                            0 <= j < parents@.take(i as int).len() && parents@.take(i as int)[j]
                                == id;
                        assert(parents@[j] == parents@[i as int]);
                    }
                }
                lemma_child_keys(before, last, id, sort, mode);
            }
            self.sort_children(id, sort, mode);
            proof {
                assert(self@.nodes.dom() =~= before.nodes.dom());
                assert(parents@.take(i + 1) =~= parents@.take(i as int).push(id));
                lists::lemma_push_contains(parents@.take(i as int), id);
            }
            i += 1;
        }
        proof {
            assert(parents@.take(i as int) =~= parents@);
            assert(self@.nodes =~= sorted_tree(before, sort, mode).nodes);
        }
    }
}

/// The order of a node's children does not depend on the order of other
/// children.
proof fn lemma_child_keys(
    before: TreeModel,
    now: TreeModel,
    id: NodeId,
    sort: SortSpec,
    mode: SizeMode,
)
    requires
        is_tree(before),
        before.nodes.contains_key(id),
        now.nodes[id] == before.nodes[id],
        forall|k: NodeId| #[trigger]
            before.nodes.contains_key(k) ==> now.nodes[k] == before.nodes[k] || now.nodes[k]
                == sorted_node(before.nodes, k, sort, mode),
    ensures
        sorted_node(now.nodes, id, sort, mode) == sorted_node(before.nodes, id, sort, mode),
{
    let depth = choose|depth: Map<NodeId, nat>| linked(before, depth);
    let children = before.nodes[id].children;
    assert forall|i: int| 0 <= i < children.len() implies now.nodes[#[trigger] children[i]].sort_key(
        sort,
        mode,
    ) == before.nodes[children[i]].sort_key(sort, mode) by {
        assert(before.nodes.contains_key(before.nodes[id].children[i]));
    }
    assert(child_keys(now.nodes, children, sort, mode) =~= child_keys(
        before.nodes,
        children,
        sort,
        mode,
    ));
}

/// The sum of the known usages of some nodes.
pub open spec fn known_usage(nodes: Map<NodeId, NodeModel>, ids: Seq<NodeId>) -> UsageStats
    decreases ids.len(),
{
    if ids.len() == 0 {
        UsageStats::zero()
    } else {
        let rest = known_usage(nodes, ids.drop_last());
        if nodes.contains_key(ids.last()) && nodes[ids.last()].usage is Some {
            rest.plus(nodes[ids.last()].usage->0)
        } else {
            rest
        }
    }
}

/// What is known of the whole tree: the usages of the root's children.
pub open spec fn root_usage(tree: TreeModel) -> UsageStats {
    if tree.nodes.contains_key(tree.root) {
        known_usage(tree.nodes, tree.nodes[tree.root].children)
    } else {
        UsageStats::zero()
    }
}

impl Tree {
    /// What is known of the whole tree: the usages of the root's children.
    pub fn root_known_usage(&self) -> (usage: UsageStats)
        ensures
            usage == root_usage(self@),
    {
        let mut usage = UsageStats { logical: 0, physical: 0, files: 0 };
        if let Some(root) = self.get(self.root_id) {
            let ghost ids = root.children@;
            let mut i: usize = 0;
            while i < root.children.len()
                invariant
                    i <= root.children@.len(),
                    root.children@ == ids,
                    usage == known_usage(self@.nodes, ids.take(i as int)),
                decreases root.children@.len() - i,
            {
                assert(ids.take(i + 1).drop_last() =~= ids.take(i as int));
                if let Some(node) = self.get(root.children[i]) {
                    if let Some(known) = node.usage {
                        usage = usage.saturating_add(known);
                    }
                }
                i += 1;
            }
            assert(ids.take(i as int) =~= ids);
        }
        usage
    }

    /// The known size of the whole tree in file lengths.
    pub fn root_known_size(&self) -> (size: u64)
        ensures
            size == root_usage(self@).logical,
    {
        self.root_known_usage().logical
    }
}

/// A node may be replaced by one with the same links.
pub proof fn lemma_with_same_links(tree: TreeModel, id: NodeId, node: NodeModel)
    requires
        is_tree(tree),
        tree.nodes.contains_key(id),
        node.parent == tree.nodes[id].parent,
        node.children == tree.nodes[id].children,
    ensures
        is_tree(with_node(tree, id, node)),
        with_node(tree, id, node).nodes.dom() == tree.nodes.dom(),
{
    let after = with_node(tree, id, node);
    assert(after.nodes.dom() =~= tree.nodes.dom());
    lemma_same_links(tree, after);
}

/// A child adds one node.
pub proof fn lemma_child_count(tree: TreeModel, parent: NodeId, id: NodeId, node: NodeModel)
    requires
        is_tree(tree),
        tree.nodes.contains_key(parent),
        !tree.nodes.contains_key(id),
    ensures
        with_child(tree, parent, id, node).nodes.dom() == tree.nodes.dom().insert(id),
        with_child(tree, parent, id, node).nodes.dom().len() == tree.nodes.dom().len() + 1,
{
    let depth = choose|depth: Map<NodeId, nat>| linked(tree, depth);
    assert(tree.nodes.dom().finite());
    assert(with_child(tree, parent, id, node).nodes.dom() =~= tree.nodes.dom().insert(id));
}

/// The tree without some subtrees.
pub open spec fn without_subtrees(tree: TreeModel, ids: Seq<NodeId>) -> TreeModel
    decreases ids.len(),
{
    if ids.len() == 0 {
        tree
    } else {
        without_subtree(without_subtrees(tree, ids.drop_last()), ids.last())
    }
}

/// The tree with nothing left below a node.
pub open spec fn cleared(tree: TreeModel, id: NodeId) -> TreeModel {
    without_subtrees(tree, tree.nodes[id].children)
}

/// Cutting off a child leaves its parent with the other children.
proof fn lemma_child_cut(tree: TreeModel, parent: NodeId, at: int)
    requires
        is_tree(tree),
        tree.nodes.contains_key(parent),
        0 <= at < tree.nodes[parent].children.len(),
    ensures
        ({
            let after = without_subtree(tree, tree.nodes[parent].children[at]);
            &&& is_tree(after)
            &&& after.root == tree.root
            &&& after.nodes.contains_key(parent)
            &&& after.nodes[parent] == NodeModel {
                children: tree.nodes[parent].children.filter(
                    other_than(tree.nodes[parent].children[at]),
                ),
                ..tree.nodes[parent]
            }
        }),
{
    let id = tree.nodes[parent].children[at];
    let depth = choose|depth: Map<NodeId, nat>| linked(tree, depth);
    assert(tree.nodes.contains_key(id) && tree.nodes[id].parent == Some(parent));
    assert(hangs(tree, depth, id));
    let gone = subtree_ids(tree, id);
    lemma_subtree(tree, depth, id, tree.nodes.dom().len() + 1, parent);
    assert(!gone.contains(parent));
    lemma_without_subtree(tree, id);
}

/// Without its first item a list of distinct items is what is left when that
/// item is taken out.
proof fn lemma_without_first(ids: Seq<NodeId>)
    requires
        ids.len() > 0,
        ids.no_duplicates(),
    ensures
        ids.filter(other_than(ids[0])) == ids.skip(1),
    decreases ids.len(),
{
    reveal(Seq::filter);
    let rest = ids.drop_last();
    if rest.len() == 0 {
        assert(rest.filter(other_than(ids[0])) =~= Seq::empty());
        assert(ids.skip(1) =~= Seq::empty());
    } else {
        lemma_without_first(rest);
        assert(ids.last() != ids[0]);
        assert(ids.filter(other_than(ids[0])) =~= rest.skip(1).push(ids.last()));
        assert(ids.skip(1) =~= rest.skip(1).push(ids.last()));
    }
}

impl Tree {
    /// Removes everything below a node.
    pub fn clear_children(&mut self, node_id: NodeId)
        requires
            is_tree(old(self)@),
            old(self)@.nodes.contains_key(node_id),
        ensures
            is_tree(final(self)@),
            final(self)@ == cleared(old(self)@, node_id),
            final(self)@.nodes.contains_key(node_id),
            final(self)@.nodes[node_id] == (NodeModel {
                children: Seq::empty(),
                ..old(self)@.nodes[node_id]
            }),
    {
        let ghost before = self@;
        let children: Vec<NodeId> = match self.get(node_id) {
            Some(node) => copy_ids(&node.children),
            None => Vec::new(),
        };
        let ghost depth = choose|depth: Map<NodeId, nat>| linked(before, depth);
        assert(before.nodes[node_id].children.no_duplicates());
        let mut i: usize = 0;
        assert(children@.skip(0) =~= children@);
        while i < children.len()
            invariant
                i <= children@.len(),
                children@ == before.nodes[node_id].children,
                children@.no_duplicates(),
                is_tree(self@),
                self@ == without_subtrees(before, children@.take(i as int)),
                self@.nodes.contains_key(node_id),
                self@.nodes[node_id] == (NodeModel {
                    children: children@.skip(i as int),
                    ..before.nodes[node_id]
                }),
            decreases children@.len() - i,
        {
            let ghost left = children@.skip(i as int);
            proof {
                assert(children@.take(i + 1).drop_last() =~= children@.take(i as int));
                assert(left[0] == children@[i as int]);
                assert(left.no_duplicates());
                lemma_without_first(left);
                assert(left.skip(1) =~= children@.skip(i + 1));
                lemma_child_cut(self@, node_id, 0);
            }
            self.remove_subtree(children[i]);
            i += 1;
        }
        proof {
            assert(children@.take(i as int) =~= children@);
            assert(children@.skip(i as int) =~= Seq::empty());
        }
    }
}

fn copy_ids(ids: &Vec<NodeId>) -> (copy: Vec<NodeId>)
    ensures
        copy@ == ids@,
{
    let mut copy: Vec<NodeId> = Vec::new();
    let mut i: usize = 0;
    while i < ids.len()
        invariant
            i <= ids@.len(),
            copy@ == ids@.take(i as int),
        decreases ids@.len() - i,
    {
        assert(ids@.take(i + 1) =~= ids@.take(i as int).push(ids@[i as int]));
        copy.push(ids[i]);
        i += 1;
    }
    assert(ids@.take(i as int) =~= ids@);
    copy
}

/// Usage is added number by number, exactly as long as the sums can be held;
/// past that they stay at the largest number.
pub proof fn usage_is_added_number_by_number(left: UsageStats, right: UsageStats)
    ensures
        left.logical + right.logical <= u64::MAX ==> left.plus(right).logical == left.logical
            + right.logical,
        left.logical + right.logical > u64::MAX ==> left.plus(right).logical == u64::MAX,
        left.physical + right.physical <= u64::MAX ==> left.plus(right).physical == left.physical
            + right.physical,
        left.physical + right.physical > u64::MAX ==> left.plus(right).physical == u64::MAX,
        left.files + right.files <= u64::MAX ==> left.plus(right).files == left.files + right.files,
        left.files + right.files > u64::MAX ==> left.plus(right).files == u64::MAX,
        left.plus(right) == right.plus(left),
        left.plus(UsageStats::zero()) == left,
{
}

/// Usage is taken off number by number, and what is more than there was leaves
/// nothing.
pub proof fn usage_is_taken_off_number_by_number(left: UsageStats, right: UsageStats)
    ensures
        right.logical <= left.logical ==> left.minus(right).logical == left.logical - right.logical,
        right.logical > left.logical ==> left.minus(right).logical == 0,
        right.physical <= left.physical ==> left.minus(right).physical == left.physical
            - right.physical,
        right.physical > left.physical ==> left.minus(right).physical == 0,
        right.files <= left.files ==> left.minus(right).files == left.files - right.files,
        right.files > left.files ==> left.minus(right).files == 0,
        left.minus(left) == UsageStats::zero(),
{
}

/// The two ways to measure show the two sizes of an entry, and changing between
/// them twice changes nothing.
pub proof fn each_way_to_measure_shows_its_size(usage: UsageStats, mode: SizeMode)
    ensures
        usage.amount(SizeMode::Logical) == usage.logical,
        usage.amount(SizeMode::Physical) == usage.physical,
        mode.other() != mode,
        mode.other().other() == mode,
{
}

/// The orders go round: each of the four comes up once. Turning a direction
/// twice changes nothing.
pub proof fn orders_go_round(key: SortKey, direction: SortDirection)
    ensures
        key.following() != key,
        key.following().following() != key,
        key.following().following().following() != key,
        key.following().following().following().following() == key,
        SortKey::Size.following() == SortKey::Name,
        SortKey::Name.following() == SortKey::Files,
        direction.opposite() != direction,
        direction.opposite().opposite() == direction,
{
}

/// Amounts begin with the largest, words with the first.
pub proof fn amounts_begin_with_the_largest(key: SortKey)
    ensures
        key.natural_direction() == SortDirection::Descending <==> (key == SortKey::Size || key
            == SortKey::Files),
        SortSpec::standard().key == SortKey::Size,
        SortSpec::standard().direction == SortDirection::Descending,
{
}

/// A direction keeps or turns the order of two amounts.
pub proof fn directions_keep_or_turn_amounts(left: u64, right: u64)
    ensures
        SortDirection::Ascending.directed(left) < SortDirection::Ascending.directed(right) <==> left
            < right,
        SortDirection::Descending.directed(left) < SortDirection::Descending.directed(right)
            <==> right < left,
{
}

/// A found entry keeps what is known of it. It is closed, holds nothing yet, and
/// waits to be measured if it is a directory.
pub proof fn found_entries_keep_what_is_known(entry: DiscoveredEntry, parent: NodeId)
    ensures
        ({
            let node = NodeModel::for_entry(entry, parent);
            &&& node.path == entry.path && node.name == entry.name@ && node.kind == entry.kind
            &&& node.usage == entry.usage && node.identity == entry.identity
            &&& node.modified == entry.modified && node.mountpoint == entry.mountpoint
            &&& node.parent == Some(parent) && node.children.len() == 0
            &&& !node.expanded && !node.children_loaded && !node.children_loading && !node.cached
            &&& entry.error is Some ==> node.scan_state == ScanState::Error && node.error == Some(
                entry.error->0@,
            ) && node.warning_count == 1
            &&& entry.error is None ==> node.error is None && node.warning_count == 0
            &&& entry.error is None ==> (node.is_pending() <==> entry.kind == NodeKind::Directory)
            &&& entry.error is None && entry.kind != NodeKind::Directory ==> node.scan_state
                == ScanState::Complete
        }),
{
}

/// A root begins open, unread and of unknown size, under its own name.
pub proof fn roots_begin_open_and_unread(path: FilePath)
    ensures
        ({
            let node = NodeModel::for_root(path);
            &&& node.path == path && node.kind == NodeKind::Directory && node.expanded
            &&& node.usage is None && node.is_pending() && node.parent is None
            &&& !node.children_loaded && !node.children_loading && node.children.len() == 0
            &&& node.error is None && node.warning_count == 0 && !node.cached
            &&& path::file_name_of(path@) is Some ==> node.name == path::file_name_of(path@)->0
            &&& path::file_name_of(path@) is None ==> node.name == path@
        }),
{
}

/// Entries are pending until they are measured or have failed.
pub proof fn entries_are_pending_until_they_are_measured(node: NodeModel)
    ensures
        node.is_pending() <==> node.scan_state != ScanState::Complete && node.scan_state
            != ScanState::Error,
{
}

/// The usage of a root is that of its children: each one of known usage adds
/// what it takes up, the others nothing.
pub proof fn known_children_add_up(nodes: Map<NodeId, NodeModel>, ids: Seq<NodeId>, id: NodeId)
    ensures
        ({
            let before = known_usage(nodes, ids);
            let after = known_usage(nodes, ids.push(id));
            &&& known_usage(nodes, Seq::empty()) == (UsageStats {
                logical: 0,
                physical: 0,
                files: 0,
            })
            &&& !nodes.contains_key(id) || nodes[id].usage is None ==> after == before
            &&& nodes.contains_key(id) && nodes[id].usage is Some ==> {
                let own = nodes[id].usage->0;
                &&& after.logical == if before.logical + own.logical > u64::MAX {
                    u64::MAX as int
                } else {
                    before.logical + own.logical
                }
                &&& after.physical == if before.physical + own.physical > u64::MAX {
                    u64::MAX as int
                } else {
                    before.physical + own.physical
                }
                &&& after.files == if before.files + own.files > u64::MAX {
                    u64::MAX as int
                } else {
                    before.files + own.files
                }
            }
        }),
        forall|tree: TreeModel|
            #![trigger root_usage(tree)]
            tree.nodes == nodes && nodes.contains_key(tree.root) && nodes[tree.root].children
                == ids ==> root_usage(tree) == known_usage(nodes, ids),
{
    assert(ids.push(id).drop_last() =~= ids);
}

/// A new child hangs last under its parent, and nothing else changes.
pub proof fn new_children_come_last(
    tree: TreeModel,
    parent: NodeId,
    id: NodeId,
    node: NodeModel,
    other: NodeId,
)
    requires
        tree.nodes.contains_key(parent),
        !tree.nodes.contains_key(id),
    ensures
        ({
            let after = with_child(tree, parent, id, node);
            &&& after.nodes[id] == node
            &&& after.nodes[parent].children == tree.nodes[parent].children.push(id)
            &&& after.nodes[parent].usage == tree.nodes[parent].usage
            &&& after.nodes[parent].expanded == tree.nodes[parent].expanded
            &&& after.root == tree.root
            &&& after.nodes.contains_key(other) <==> tree.nodes.contains_key(other) || other == id
            &&& tree.nodes.contains_key(other) && other != parent ==> after.nodes[other]
                == tree.nodes[other]
        }),
{
}

/// Opening the way to a node opens its ancestors and changes nothing else.
pub proof fn the_way_to_a_node_is_opened(tree: TreeModel, id: NodeId, other: NodeId)
    requires
        tree.nodes.contains_key(other),
    ensures
        ({
            let after = opened_to(tree, id);
            &&& after.root == tree.root
            &&& after.nodes.contains_key(other)
            &&& ancestor_ids(tree, id).contains(other) ==> after.nodes[other].expanded
                && after.nodes[other].usage == tree.nodes[other].usage
                && after.nodes[other].children == tree.nodes[other].children
            &&& !ancestor_ids(tree, id).contains(other) ==> after.nodes[other] == tree.nodes[other]
        }),
{
}

proof fn lemma_preorder_holds(
    tree: TreeModel,
    depth: Map<NodeId, nat>,
    top: NodeId,
    child: int,
    fuel: nat,
)
    requires
        linked(tree, depth),
        tree.nodes.contains_key(top),
        0 <= child < tree.nodes[top].children.len(),
        fuel > 1,
    ensures
        preorder(tree.nodes, top, fuel).contains(tree.nodes[top].children[child]),
{
    let kids = tree.nodes[top].children;
    let less = (fuel - 1) as nat;
    let below = preorder_from(tree.nodes, kids, less);
    lemma_listed_from(tree.nodes, kids, child, less, kids[child]);
    let k = choose|k: int| 0 <= k < below.len() && below[k] == kids[child];
    assert(preorder(tree.nodes, top, fuel)[k + 1] == kids[child]);
}

proof fn lemma_listed_from(
    nodes: Map<NodeId, NodeModel>,
    ids: Seq<NodeId>,
    i: int,
    fuel: nat,
    id: NodeId,
)
    requires
        0 <= i < ids.len(),
        fuel > 0,
        nodes.contains_key(ids[i]),
        id == ids[i] || preorder(nodes, ids[i], fuel).contains(id),
    ensures
        preorder_from(nodes, ids, fuel).contains(id),
    decreases ids.len(),
{
    let front = preorder_from(nodes, ids.drop_last(), fuel);
    let last = preorder(nodes, ids.last(), fuel);
    let all = preorder_from(nodes, ids, fuel);
    assert(all == front + last);
    if i < ids.len() - 1 {
        assert(ids.drop_last()[i] == ids[i]);
        lemma_listed_from(nodes, ids.drop_last(), i, fuel, id);
        let k = choose|k: int| 0 <= k < front.len() && front[k] == id;
        assert(all[k] == id);
    } else {
        if id == ids[i] {
            assert(last[0] == id);
        }
        let k = choose|k: int| 0 <= k < last.len() && last[k] == id;
        assert(all[front.len() + k] == id);
    }
}

/// The entries directly below the root are among those that can be searched.
pub proof fn entries_of_the_root_are_loaded(tree: TreeModel, i: int)
    requires
        is_tree(tree),
        0 <= i < tree.nodes[tree.root].children.len(),
    ensures
        loaded_ids(tree).contains(tree.nodes[tree.root].children[i]),
{
    let depth = choose|depth: Map<NodeId, nat>| linked(tree, depth);
    let kids = tree.nodes[tree.root].children;
    assert(tree.nodes.contains_key(tree.nodes[tree.root].children[i]));
    lemma_listed_from(tree.nodes, kids, i, tree.nodes.dom().len() + 1, kids[i]);
}

proof fn lemma_listed_with_children(
    tree: TreeModel,
    depth: Map<NodeId, nat>,
    ids: Seq<NodeId>,
    fuel: nat,
    id: NodeId,
    child: int,
)
    requires
        linked(tree, depth),
        forall|i: int|
            0 <= i < ids.len() ==> tree.nodes.contains_key(#[trigger] ids[i]) && fuel
                + depth[ids[i]] > tree.nodes.dom().len(),
        preorder_from(tree.nodes, ids, fuel).contains(id),
        tree.nodes.contains_key(id),
        0 <= child < tree.nodes[id].children.len(),
    ensures
        preorder_from(tree.nodes, ids, fuel).contains(tree.nodes[id].children[child]),
    decreases fuel, ids.len(),
{
    let front = preorder_from(tree.nodes, ids.drop_last(), fuel);
    let last = preorder(tree.nodes, ids.last(), fuel);
    let all = preorder_from(tree.nodes, ids, fuel);
    let kid = tree.nodes[id].children[child];
    assert(fuel > 0 && ids.len() > 0);
    assert(all == front + last);
    let at = choose|at: int| 0 <= at < all.len() && all[at] == id;
    if at < front.len() {
        assert(front[at] == id);
        assert forall|i: int| 0 <= i < ids.drop_last().len() implies tree.nodes.contains_key(
            #[trigger] ids.drop_last()[i],
        ) && fuel + depth[ids.drop_last()[i]] > tree.nodes.dom().len() by {
            assert(ids[i] == ids.drop_last()[i]);
        }
        lemma_listed_with_children(tree, depth, ids.drop_last(), fuel, id, child);
        let k = choose|k: int| 0 <= k < front.len() && front[k] == kid;
        assert(all[k] == kid);
    } else {
        let top = ids.last();
        assert(ids[ids.len() - 1] == top);
        assert(last[at - front.len()] == id);
        let kids = tree.nodes[top].children;
        let less = (fuel - 1) as nat;
        let below = preorder_from(tree.nodes, kids, less);
        assert(last == seq![top] + below);
        lemma_depth(tree, depth, top);
        if at == front.len() {
            assert(id == top);
            assert(tree.nodes[tree.nodes[top].children[child]].parent == Some(top));
            assert(kid != tree.root);
            assert(hangs(tree, depth, kid));
            lemma_depth(tree, depth, kid);
            lemma_preorder_holds(tree, depth, top, child, fuel);
        } else {
            assert(below[at - front.len() - 1] == id);
            assert forall|i: int| 0 <= i < kids.len() implies tree.nodes.contains_key(
                #[trigger] kids[i],
            ) && less + depth[kids[i]] > tree.nodes.dom().len() by {
                assert(tree.nodes[tree.nodes[top].children[i]].parent == Some(top));
                assert(kids[i] != tree.root);
                assert(hangs(tree, depth, kids[i]));
            }
            lemma_listed_with_children(tree, depth, kids, less, id, child);
            let k = choose|k: int| 0 <= k < below.len() && below[k] == kid;
            assert(last[k + 1] == kid);
        }
        let m = choose|m: int| 0 <= m < last.len() && last[m] == kid;
        assert(all[front.len() + m] == kid);
    }
}

/// With an entry all entries directly below it can be searched, so that with
/// those of the root all can.
pub proof fn loaded_entries_are_loaded_with_their_children(tree: TreeModel, id: NodeId, child: int)
    requires
        is_tree(tree),
        loaded_ids(tree).contains(id),
        tree.nodes.contains_key(id),
        0 <= child < tree.nodes[id].children.len(),
    ensures
        loaded_ids(tree).contains(tree.nodes[id].children[child]),
{
    let depth = choose|depth: Map<NodeId, nat>| linked(tree, depth);
    let kids = tree.nodes[tree.root].children;
    assert forall|i: int| 0 <= i < kids.len() implies tree.nodes.contains_key(#[trigger] kids[i])
        && tree.nodes.dom().len() + 1 + depth[kids[i]] > tree.nodes.dom().len() by {
        assert(tree.nodes.contains_key(tree.nodes[tree.root].children[i]));
    }
    lemma_listed_with_children(tree, depth, kids, tree.nodes.dom().len() + 1, id, child);
}

} // verus!
