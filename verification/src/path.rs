//! Paths as byte strings.
//!
//! A path is the byte string that the operating system uses. What it means is
//! given by its components: `/` separates them, empty ones and `.` do not
//! count (except a leading `.`), and a leading `/` is a component of its own.
use std::sync::Arc;
use vstd::prelude::*;
use vstd::std_specs::cmp::PartialEqSpecImpl;
use vstd::string::StrSliceExecFns;

use crate::order;
use crate::text;

verus! {

pub const SLASH: u8 = 47;

pub const DOT: u8 = 46;

/// A path, or a single name, in the bytes that the operating system uses.
#[derive(Debug)]
pub struct FilePath {
    pub raw: Arc<Vec<u8>>,
}

impl View for FilePath {
    type V = Seq<u8>;

    open spec fn view(&self) -> Seq<u8> {
        self.raw@
    }
}

impl Clone for FilePath {
    fn clone(&self) -> (result: Self)
        ensures
            result == *self,
    {
        FilePath { raw: self.raw.clone() }
    }
}

/// The first place at or after `from` that holds a separator, or the end.
pub open spec fn segment_end(bytes: Seq<u8>, from: int) -> int
    decreases bytes.len() - from,
{
    if from >= bytes.len() || bytes[from] == SLASH {
        from
    } else {
        segment_end(bytes, from + 1)
    }
}

pub proof fn lemma_segment_end(bytes: Seq<u8>, from: int)
    requires
        0 <= from <= bytes.len(),
    ensures
        from <= segment_end(bytes, from) <= bytes.len(),
        forall|i: int| from <= i < segment_end(bytes, from) ==> bytes[i] != SLASH,
        segment_end(bytes, from) < bytes.len() ==> bytes[segment_end(bytes, from)] == SLASH,
    decreases bytes.len() - from,
{
    if from < bytes.len() && bytes[from] != SLASH {
        lemma_segment_end(bytes, from + 1);
    }
}

/// Whether the segment from `at` to `end` is a component.
pub open spec fn counts(bytes: Seq<u8>, at: int, end: int) -> bool {
    &&& at < end
    &&& !(end == at + 1 && bytes[at] == DOT && at != 0)
}

/// The places of the components from `at` on.
pub open spec fn parts_from(bytes: Seq<u8>, at: int) -> Seq<(int, int)>
    decreases bytes.len() + 1 - at,
{
    if at < 0 || at >= bytes.len() {
        Seq::empty()
    } else {
        proof {
            lemma_segment_end(bytes, at);
        }
        let end = segment_end(bytes, at);
        let rest = parts_from(bytes, end + 1);
        if counts(bytes, at, end) {
            seq![(at, end)] + rest
        } else {
            rest
        }
    }
}

pub open spec fn is_rooted(bytes: Seq<u8>) -> bool {
    bytes.len() > 0 && bytes[0] == SLASH
}

/// The places of the components of a path; that of the root is its slash.
pub open spec fn parts(bytes: Seq<u8>) -> Seq<(int, int)> {
    if is_rooted(bytes) {
        seq![(0int, 1int)] + parts_from(bytes, 1)
    } else {
        parts_from(bytes, 0)
    }
}

/// The components of a path. The root stands as `/`.
pub open spec fn components(bytes: Seq<u8>) -> Seq<Seq<u8>> {
    Seq::new(
        parts(bytes).len(),
        |i: int| bytes.subrange(parts(bytes)[i].0, parts(bytes)[i].1),
    )
}

/// Whether two byte strings name the same path.
pub open spec fn same_path(left: Seq<u8>, right: Seq<u8>) -> bool {
    components(left) == components(right)
}

/// Whether `base` is `path` or one of its ancestors.
pub open spec fn path_starts_with(path: Seq<u8>, base: Seq<u8>) -> bool {
    components(base).is_prefix_of(components(path))
}

/// Whether a component is a name, not the root, `.` or `..`.
pub open spec fn is_name(component: Seq<u8>) -> bool {
    &&& component != seq![SLASH]
    &&& component != seq![DOT]
    &&& component != seq![DOT, DOT]
}

/// The path without its last component; the root and the empty path have none.
pub open spec fn parent_of(bytes: Seq<u8>) -> Option<Seq<u8>> {
    let all = parts(bytes);
    if all.len() == 0 || (all.len() == 1 && is_rooted(bytes)) {
        None
    } else if all.len() == 1 {
        Some(Seq::empty())
    } else {
        Some(bytes.take(all[all.len() - 2].1))
    }
}

/// The last component where it is a name.
pub open spec fn file_name_of(bytes: Seq<u8>) -> Option<Seq<u8>> {
    let all = components(bytes);
    if all.len() > 0 && is_name(all.last()) {
        Some(all.last())
    } else {
        None
    }
}

/// The place after the last dot of a name, or 0 where it has none.
pub open spec fn after_last_dot(name: Seq<u8>) -> int
    decreases name.len(),
{
    if name.len() == 0 {
        0
    } else if name.last() == DOT {
        name.len() as int
    } else {
        after_last_dot(name.drop_last())
    }
}

/// What follows the last dot of the file name, unless that dot comes first.
pub open spec fn extension_of(bytes: Seq<u8>) -> Option<Seq<u8>> {
    match file_name_of(bytes) {
        None => None,
        Some(name) => {
            let at = after_last_dot(name);
            if at <= 1 {
                None
            } else {
                Some(name.skip(at))
            }
        },
    }
}

/// A path with another one appended; a rooted one takes its place.
pub open spec fn joined_path(base: Seq<u8>, name: Seq<u8>) -> Seq<u8> {
    if is_rooted(name) {
        name
    } else if base.len() > 0 && base.last() != SLASH {
        base.push(SLASH) + name
    } else {
        base + name
    }
}

/// The rank of a kind of component: the root, `.`, `..`, names.
pub open spec fn component_rank(component: Seq<u8>) -> u64 {
    if component == seq![SLASH] {
        1
    } else if component == seq![DOT] {
        2
    } else if component == seq![DOT, DOT] {
        3
    } else {
        4
    }
}

/// The sort key of a byte string: its bytes, raised by one, and a final zero.
pub open spec fn bytes_key(bytes: Seq<u8>) -> Seq<u64> {
    Seq::new(bytes.len(), |i: int| (bytes[i] + 1) as u64).push(0)
}

/// The sort key of a list of components.
pub open spec fn components_key(all: Seq<Seq<u8>>) -> Seq<u64>
    decreases all.len(),
{
    if all.len() == 0 {
        Seq::empty()
    } else {
        components_key(all.drop_last()).push(component_rank(all.last())) + bytes_key(all.last())
    }
}

/// The sort key of a path: paths are ordered component by component.
pub open spec fn path_key(bytes: Seq<u8>) -> Seq<u64> {
    components_key(components(bytes))
}

pub(crate) fn same_bytes(left: &[u8], right: &[u8]) -> (same: bool)
    ensures
        same == (left@ == right@),
{
    if left.len() != right.len() {
        return false;
    }
    let mut i: usize = 0;
    while i < left.len()
        invariant
            i <= left@.len() == right@.len(),
            forall|j: int| 0 <= j < i ==> left@[j] == right@[j],
        decreases left@.len() - i,
    {
        if left[i] != right[i] {
            return false;
        }
        i += 1;
    }
    assert(left@ =~= right@);
    true
}

/// A copy of a range of bytes.
pub fn copy_range(bytes: &Vec<u8>, from: usize, to: usize) -> (copy: Vec<u8>)
    requires
        from <= to <= bytes@.len(),
    ensures
        copy@ == bytes@.subrange(from as int, to as int),
{
    let mut copy: Vec<u8> = Vec::new();
    let mut i: usize = from;
    while i < to
        invariant
            from <= i <= to <= bytes@.len(),
            copy@ == bytes@.subrange(from as int, i as int),
        decreases to - i,
    {
        copy.push(bytes[i]);
        i += 1;
    }
    copy
}

proof fn lemma_parts_from(bytes: Seq<u8>, at: int)
    ensures
        forall|i: int|
            0 <= i < parts_from(bytes, at).len() ==> {
                let part = #[trigger] parts_from(bytes, at)[i];
                at <= part.0 < part.1 <= bytes.len()
            },
    decreases bytes.len() + 1 - at,
{
    if 0 <= at < bytes.len() {
        lemma_segment_end(bytes, at);
        let end = segment_end(bytes, at);
        lemma_parts_from(bytes, end + 1);
        let rest = parts_from(bytes, end + 1);
        if counts(bytes, at, end) {
            assert forall|i: int| 0 <= i < parts_from(bytes, at).len() implies {
                let part = #[trigger] parts_from(bytes, at)[i];
                at <= part.0 < part.1 <= bytes.len()
            } by {
                if i > 0 {
                    assert(parts_from(bytes, at)[i] == rest[i - 1]);
                }
            }
        } else {
            assert(parts_from(bytes, at) == rest);
            assert forall|i: int| 0 <= i < parts_from(bytes, at).len() implies {
                let part = #[trigger] parts_from(bytes, at)[i];
                at <= part.0 < part.1 <= bytes.len()
            } by {
                let part = rest[i];
            }
        }
    }
}

proof fn lemma_parts(bytes: Seq<u8>)
    ensures
        forall|i: int|
            0 <= i < parts(bytes).len() ==> {
                let part = #[trigger] parts(bytes)[i];
                0 <= part.0 < part.1 <= bytes.len()
            },
{
    lemma_parts_from(bytes, 0);
    lemma_parts_from(bytes, 1);
    if is_rooted(bytes) {
        assert forall|i: int| 0 <= i < parts(bytes).len() implies {
            let part = #[trigger] parts(bytes)[i];
            0 <= part.0 < part.1 <= bytes.len()
        } by {
            if i > 0 {
                assert(parts(bytes)[i] == parts_from(bytes, 1)[i - 1]);
            }
        }
    }
}

impl FilePath {
    pub fn new(bytes: Vec<u8>) -> (path: Self)
        ensures
            path@ == bytes@,
    {
        FilePath { raw: Arc::new(bytes) }
    }

    /// The path that a text spells.
    pub fn from_text(text: &str) -> (path: Self)
        ensures
            path@ == vstd::utf8::encode_utf8(text@),
    {
        FilePath { raw: Arc::new(text.as_bytes_vec()) }
    }

    pub fn as_bytes(&self) -> (bytes: &Vec<u8>)
        ensures
            bytes@ == self@,
    {
        &self.raw
    }

    /// The text that shows the path.
    pub fn display(&self) -> (result: String)
        ensures
            result@ == text::lossy_text(self@),
    {
        text::lossy(self.raw.as_slice())
    }

    /// The places of the components.
    fn ranges(&self) -> (ranges: Vec<(usize, usize)>)
        ensures
            ranges@.len() == parts(self@).len(),
            forall|i: int|
                0 <= i < ranges@.len() ==> {
                    &&& (#[trigger] ranges@[i]).0 == parts(self@)[i].0
                    &&& ranges@[i].1 == parts(self@)[i].1
                    &&& 0 <= ranges@[i].0 < ranges@[i].1 <= self@.len()
                },
    {
        let bytes: &Vec<u8> = &self.raw;
        let ghost b = self@;
        let mut ranges: Vec<(usize, usize)> = Vec::new();
        let ghost mut found: Seq<(int, int)> = Seq::empty();
        let mut at: usize = 0;
        if bytes.len() > 0 && bytes[0] == SLASH {
            ranges.push((0, 1));
            at = 1;
            proof {
                found = seq![(0int, 1int)];
            }
        }
        assert(parts(b) =~= found + parts_from(b, at as int));
        while at < bytes.len()
            invariant
                bytes@ == b,
                at <= bytes@.len(),
                parts(b) == found + parts_from(b, at as int),
                found.len() == ranges@.len(),
                forall|i: int|
                    0 <= i < ranges@.len() ==> {
                        &&& (#[trigger] ranges@[i]).0 == found[i].0
                        &&& ranges@[i].1 == found[i].1
                    },
            decreases bytes@.len() - at,
        {
            let mut end: usize = at;
            while end < bytes.len() && bytes[end] != SLASH
                invariant
                    at <= end <= bytes@.len(),
                    bytes@ == b,
                    segment_end(b, at as int) == segment_end(b, end as int),
                decreases bytes@.len() - end,
            {
                end += 1;
            }
            let counted: bool = at < end && !(end == at + 1 && bytes[at] == DOT && at != 0);
            proof {
                let rest = parts_from(b, end + 1);
                if counted {
                    assert(found + (seq![(at as int, end as int)] + rest) =~= found.push(
                        (at as int, end as int),
                    ) + rest);
                }
            }
            if counted {
                ranges.push((at, end));
                proof {
                    found = found.push((at as int, end as int));
                }
            }
            if end == bytes.len() {
                assert(parts_from(b, end + 1) =~= parts_from(b, end as int));
                at = end;
            } else {
                at = end + 1;
            }
        }
        proof {
            assert(parts_from(b, at as int) =~= Seq::empty());
            assert(found + parts_from(b, at as int) =~= found);
            lemma_parts(b);
        }
        ranges
    }

    /// The components of the path.
    pub fn component_list(&self) -> (list: Vec<Vec<u8>>)
        ensures
            list@.len() == components(self@).len(),
            forall|i: int| 0 <= i < list@.len() ==> (#[trigger] list@[i])@ == components(self@)[i],
    {
        let ranges = self.ranges();
        let mut list: Vec<Vec<u8>> = Vec::new();
        let mut i: usize = 0;
        while i < ranges.len()
            invariant
                i == list@.len() <= ranges@.len(),
                ranges@.len() == parts(self@).len(),
                forall|k: int|
                    0 <= k < ranges@.len() ==> {
                        &&& (#[trigger] ranges@[k]).0 == parts(self@)[k].0
                        &&& ranges@[k].1 == parts(self@)[k].1
                        &&& 0 <= ranges@[k].0 < ranges@[k].1 <= self@.len()
                    },
                forall|k: int| 0 <= k < i ==> (#[trigger] list@[k])@ == components(self@)[k],
            decreases ranges@.len() - i,
        {
            let (from, to) = ranges[i];
            list.push(copy_range(&self.raw, from, to));
            i += 1;
        }
        list
    }

    /// The number of components.
    pub fn depth(&self) -> (count: usize)
        ensures
            count == components(self@).len(),
    {
        self.ranges().len()
    }

    pub fn is_absolute(&self) -> (result: bool)
        ensures
            result == is_rooted(self@),
    {
        self.raw.len() > 0 && self.raw[0] == SLASH
    }

    /// Whether `base` is this path or one of its ancestors.
    pub fn starts_with(&self, base: &FilePath) -> (result: bool)
        ensures
            result == path_starts_with(self@, base@),
    {
        let mine = self.component_list();
        let theirs = base.component_list();
        if theirs.len() > mine.len() {
            return false;
        }
        let mut i: usize = 0;
        while i < theirs.len()
            invariant
                i <= theirs@.len() <= mine@.len(),
                mine@.len() == components(self@).len(),
                theirs@.len() == components(base@).len(),
                forall|k: int|
                    0 <= k < mine@.len() ==> (#[trigger] mine@[k])@ == components(self@)[k],
                forall|k: int|
                    0 <= k < theirs@.len() ==> (#[trigger] theirs@[k])@ == components(base@)[k],
                forall|k: int|
                    0 <= k < i ==> #[trigger] components(self@)[k] == components(base@)[k],
            decreases theirs@.len() - i,
        {
            if !same_bytes(mine[i].as_slice(), theirs[i].as_slice()) {
                assert(components(self@).subrange(0, components(base@).len() as int)[i as int]
                    != components(base@)[i as int]);
                return false;
            }
            i += 1;
        }
        assert(components(base@) =~= components(self@).subrange(
            0,
            components(base@).len() as int,
        ));
        true
    }

    /// Whether both name the same path.
    pub fn same(&self, other: &FilePath) -> (result: bool)
        ensures
            result == same_path(self@, other@),
    {
        let forward = self.starts_with(other);
        let backward = other.starts_with(self);
        proof {
            if forward && backward {
                assert(components(self@) =~= components(other@));
            } else if components(self@) == components(other@) {
                assert(components(self@) =~= components(self@).subrange(
                    0,
                    components(self@).len() as int,
                ));
            }
        }
        forward && backward
    }

    /// The path without its last component.
    pub fn parent(&self) -> (parent: Option<FilePath>)
        ensures
            match parent {
                Some(path) => parent_of(self@) == Some(path@),
                None => parent_of(self@) is None,
            },
    {
        let ranges = self.ranges();
        if ranges.len() == 0 || (ranges.len() == 1 && self.is_absolute()) {
            return None;
        }
        if ranges.len() == 1 {
            let empty: Vec<u8> = Vec::new();
            assert(empty@ =~= Seq::<u8>::empty());
            return Some(FilePath::new(empty));
        }
        let end: usize = ranges[ranges.len() - 2].1;
        Some(FilePath::new(copy_range(&self.raw, 0, end)))
    }

    /// The last component where it is a name.
    pub fn file_name(&self) -> (name: Option<FilePath>)
        ensures
            match name {
                Some(found) => file_name_of(self@) == Some(found@),
                None => file_name_of(self@) is None,
            },
    {
        let ranges = self.ranges();
        if ranges.len() == 0 {
            return None;
        }
        let (from, to) = ranges[ranges.len() - 1];
        let name = copy_range(&self.raw, from, to);
        assert(name@ == components(self@).last());
        if name.len() == 1 && (name[0] == SLASH || name[0] == DOT) {
            assert(name@ =~= seq![name@[0]]);
            return None;
        }
        if name.len() == 2 && name[0] == DOT && name[1] == DOT {
            assert(name@ =~= seq![DOT, DOT]);
            return None;
        }
        Some(FilePath::new(name))
    }

    /// What follows the last dot of the file name.
    pub fn extension(&self) -> (extension: Option<FilePath>)
        ensures
            match extension {
                Some(found) => extension_of(self@) == Some(found@),
                None => extension_of(self@) is None,
            },
    {
        let name = match self.file_name() {
            Some(name) => name,
            None => {
                return None;
            },
        };
        let bytes: &Vec<u8> = &name.raw;
        let ghost b = name@;
        let mut at: usize = bytes.len();
        assert(b.take(b.len() as int) =~= b);
        while at > 0 && bytes[at - 1] != DOT
            invariant
                bytes@ == b,
                at <= b.len(),
                after_last_dot(b) == after_last_dot(b.take(at as int)),
            decreases at,
        {
            assert(b.take(at as int).drop_last() =~= b.take(at - 1));
            at -= 1;
        }
        assert(after_last_dot(b) == at);
        if at <= 1 {
            return None;
        }
        assert(b.skip(at as int) =~= b.subrange(at as int, b.len() as int));
        Some(FilePath::new(copy_range(bytes, at, bytes.len())))
    }

    /// This path with another one appended.
    pub fn join(&self, name: &FilePath) -> (path: FilePath)
        ensures
            path@ == joined_path(self@, name@),
    {
        if name.is_absolute() {
            return name.clone();
        }
        let mut bytes = copy_range(&self.raw, 0, self.raw.len());
        assert(bytes@ =~= self@);
        if bytes.len() > 0 && bytes[bytes.len() - 1] != SLASH {
            bytes.push(SLASH);
        }
        let mut rest = copy_range(&name.raw, 0, name.raw.len());
        assert(rest@ =~= name@);
        bytes.append(&mut rest);
        FilePath::new(bytes)
    }

    /// The sort key of the path.
    pub fn sort_key(&self) -> (key: Vec<u64>)
        ensures
            key@ == path_key(self@),
    {
        let list = self.component_list();
        let ghost all = components(self@);
        let mut key: Vec<u64> = Vec::new();
        let mut i: usize = 0;
        while i < list.len()
            invariant
                i <= list@.len(),
                all == components(self@),
                list@.len() == all.len(),
                forall|k: int| 0 <= k < list@.len() ==> (#[trigger] list@[k])@ == all[k],
                key@ == components_key(all.take(i as int)),
            decreases list@.len() - i,
        {
            let part: &Vec<u8> = &list[i];
            assert(all.take(i + 1).drop_last() =~= all.take(i as int));
            assert(part@.len() == 1 ==> part@ =~= seq![part@[0]]);
            assert(part@.len() == 2 ==> part@ =~= seq![part@[0], part@[1]]);
            let rank: u64 = if part.len() == 1 && part[0] == SLASH {
                1
            } else if part.len() == 1 && part[0] == DOT {
                2
            } else if part.len() == 2 && part[0] == DOT && part[1] == DOT {
                3
            } else {
                4
            };
            key.push(rank);
            push_bytes_key(&mut key, part);
            i += 1;
        }
        assert(all.take(i as int) =~= all);
        key
    }
}

/// Appends the sort key of a byte string.
pub fn push_bytes_key(key: &mut Vec<u64>, bytes: &Vec<u8>)
    ensures
        final(key)@ == old(key)@ + bytes_key(bytes@),
{
    let ghost before = key@;
    let mut i: usize = 0;
    while i < bytes.len()
        invariant
            i <= bytes@.len(),
            key@ == before + Seq::new(i as nat, |j: int| (bytes@[j] + 1) as u64),
        decreases bytes@.len() - i,
    {
        key.push(bytes[i] as u64 + 1);
        i += 1;
        assert(key@ =~= before + Seq::new(i as nat, |j: int| (bytes@[j] + 1) as u64));
    }
    key.push(0);
    assert(key@ =~= before + bytes_key(bytes@));
}

impl PartialEq for FilePath {
    fn eq(&self, other: &Self) -> (result: bool) {
        self.same(other)
    }
}

impl PartialEqSpecImpl for FilePath {
    open spec fn obeys_eq_spec() -> bool {
        true
    }

    open spec fn eq_spec(&self, other: &Self) -> bool {
        same_path(self@, other@)
    }
}

impl Eq for FilePath {

}

/// A path starts with itself.
pub proof fn starts_with_is_reflexive(path: Seq<u8>)
    ensures
        path_starts_with(path, path),
{
    assert(components(path) =~= components(path).subrange(0, components(path).len() as int));
}

/// An ancestor of an ancestor is an ancestor.
pub proof fn starts_with_is_transitive(path: Seq<u8>, middle: Seq<u8>, base: Seq<u8>)
    requires
        path_starts_with(path, middle),
        path_starts_with(middle, base),
    ensures
        path_starts_with(path, base),
{
    let n = components(base).len() as int;
    assert(components(base) =~= components(path).subrange(0, n));
}

/// Two paths that start with each other are the same.
pub proof fn starts_with_is_antisymmetric(path: Seq<u8>, base: Seq<u8>)
    requires
        path_starts_with(path, base),
        path_starts_with(base, path),
    ensures
        same_path(path, base),
{
    assert(components(path) =~= components(base));
}

/// Bytes behind the end of a component do not change the components up to it.
proof fn lemma_parts_prefix(bytes: Seq<u8>, at: int, k: int)
    requires
        0 <= at <= bytes.len(),
        0 <= k < parts_from(bytes, at).len(),
    ensures
        parts_from(bytes.take(parts_from(bytes, at)[k].1), at) == parts_from(bytes, at).take(k + 1),
    decreases bytes.len() + 1 - at,
{
    lemma_segment_end(bytes, at);
    lemma_parts_from(bytes, at);
    let end = segment_end(bytes, at);
    let rest = parts_from(bytes, end + 1);
    let stop = parts_from(bytes, at)[k].1;
    let cut = bytes.take(stop);
    lemma_parts_from(bytes, end + 1);
    if counts(bytes, at, end) && k == 0 {
        assert(stop == end);
        lemma_same_segment(bytes, cut, at, end);
        assert(parts_from(cut, end + 1) =~= Seq::empty());
        assert(parts_from(cut, at) =~= parts_from(bytes, at).take(1));
    } else {
        let j = if counts(bytes, at, end) {
            k - 1
        } else {
            k
        };
        assert(parts_from(bytes, at)[k] == rest[j]);
        assert(rest[j].0 > end);
        assert(end + 1 <= bytes.len());
        lemma_same_segment(bytes, cut, at, end);
        lemma_parts_prefix(bytes, end + 1, j);
        assert(parts_from(cut, at) =~= parts_from(bytes, at).take(k + 1));
    }
}

/// A segment ends where it did when what follows its end is cut off or kept.
proof fn lemma_same_segment(bytes: Seq<u8>, cut: Seq<u8>, at: int, end: int)
    requires
        0 <= at <= end <= cut.len() <= bytes.len(),
        end == segment_end(bytes, at),
        forall|i: int| 0 <= i < cut.len() ==> cut[i] == bytes[i],
        end < cut.len() ==> bytes[end] == SLASH,
    ensures
        segment_end(cut, at) == end,
    decreases end - at,
{
    if at < end {
        lemma_segment_end(bytes, at);
        lemma_same_segment(bytes, cut, at + 1, end);
    }
}

/// The parent of a path has all its components but the last.
pub proof fn parent_drops_the_last_component(bytes: Seq<u8>)
    ensures
        match parent_of(bytes) {
            Some(parent) => components(bytes).len() > 0 && components(parent) == components(
                bytes,
            ).drop_last(),
            None => components(bytes).len() == 0 || (components(bytes).len() == 1 && is_rooted(
                bytes,
            )),
        },
{
    let all = parts(bytes);
    lemma_parts(bytes);
    if let Some(parent) = parent_of(bytes) {
        let n = all.len() - 1;
        if n == 0 {
            assert(parts(parent) =~= Seq::empty());
        } else if is_rooted(bytes) {
            if n == 1 {
                assert(parts_from(parent, 1) =~= Seq::empty());
            } else {
                assert(all[n - 1] == parts_from(bytes, 1)[n - 2]);
                lemma_parts_prefix(bytes, 1, n - 2);
                lemma_parts_from(bytes, 1);
            }
            assert(parts(parent) =~= all.take(n));
        } else {
            lemma_parts_prefix(bytes, 0, n - 1);
            assert(parts(parent) =~= all.take(n));
        }
        lemma_parts_ordered(bytes);
        assert forall|i: int| 0 <= i < n implies components(parent)[i] == components(bytes)[i] by {
            assert(all.take(n)[i] == all[i]);
            assert(parts(parent)[i] == all[i]);
            assert(all[i].1 <= all[n - 1].1);
            assert(parent.subrange(all[i].0, all[i].1) =~= bytes.subrange(all[i].0, all[i].1));
        }
        assert(components(parent) =~= components(bytes).drop_last());
    }
}

proof fn lemma_parts_from_ordered(bytes: Seq<u8>, at: int)
    ensures
        forall|i: int, j: int|
            0 <= i <= j < parts_from(bytes, at).len() ==> (#[trigger] parts_from(bytes, at)[i]).1 <= (
            #[trigger] parts_from(bytes, at)[j]).1,
    decreases bytes.len() + 1 - at,
{
    if 0 <= at < bytes.len() {
        lemma_segment_end(bytes, at);
        let end = segment_end(bytes, at);
        lemma_parts_from_ordered(bytes, end + 1);
        lemma_parts_from(bytes, end + 1);
        let rest = parts_from(bytes, end + 1);
        assert forall|i: int, j: int|
            0 <= i <= j < parts_from(bytes, at).len() implies (#[trigger] parts_from(bytes, at)[i]).1
            <= (#[trigger] parts_from(bytes, at)[j]).1 by {
            let shift: int = if counts(bytes, at, end) {
                1
            } else {
                0
            };
            if i >= shift {
                assert(parts_from(bytes, at)[i] == rest[i - shift]);
            }
            if j >= shift {
                assert(parts_from(bytes, at)[j] == rest[j - shift]);
            }
        }
    }
}

proof fn lemma_parts_ordered(bytes: Seq<u8>)
    ensures
        forall|i: int, j: int|
            0 <= i <= j < parts(bytes).len() ==> (#[trigger] parts(bytes)[i]).1 <= (
            #[trigger] parts(bytes)[j]).1,
{
    lemma_parts_from_ordered(bytes, 0);
    lemma_parts_from_ordered(bytes, 1);
    lemma_parts_from(bytes, 1);
    if is_rooted(bytes) {
        let rest = parts_from(bytes, 1);
        assert forall|i: int, j: int| 0 <= i <= j < parts(bytes).len() implies (
        #[trigger] parts(bytes)[i]).1 <= (#[trigger] parts(bytes)[j]).1 by {
            if i > 0 {
                assert(parts(bytes)[i] == rest[i - 1]);
            }
            if j > 0 {
                assert(parts(bytes)[j] == rest[j - 1]);
            }
        }
    }
}

/// Whether a byte string is a name without separators.
pub open spec fn is_plain_name(name: Seq<u8>) -> bool {
    &&& name.len() > 0
    &&& is_name(name)
    &&& forall|i: int| 0 <= i < name.len() ==> name[i] != SLASH
}

/// A separator at the end adds no component.
proof fn lemma_trailing_separator(bytes: Seq<u8>, at: int)
    requires
        0 <= at <= bytes.len(),
    ensures
        parts_from(bytes.push(SLASH), at) == parts_from(bytes, at),
    decreases bytes.len() + 1 - at,
{
    let longer = bytes.push(SLASH);
    if at < bytes.len() {
        lemma_segment_end(bytes, at);
        lemma_segment_end(longer, at);
        let end = segment_end(longer, at);
        assert(longer[bytes.len() as int] == SLASH);
        assert(end <= bytes.len());
        lemma_same_segment(longer, bytes, at, end);
        if end + 1 <= bytes.len() {
            lemma_trailing_separator(bytes, end + 1);
        } else {
            assert(parts_from(longer, end + 1) =~= Seq::empty());
            assert(parts_from(bytes, end + 1) =~= Seq::empty());
        }
    } else {
        assert(segment_end(longer, at) == at);
        assert(parts_from(longer, at + 1) =~= Seq::empty());
        assert(parts_from(longer, at) =~= parts_from(bytes, at));
    }
}

/// A name behind a separator is one more component.
proof fn lemma_parts_append(base: Seq<u8>, name: Seq<u8>, at: int)
    requires
        0 <= at <= base.len(),
        base.len() == 0 || base.last() == SLASH,
        is_plain_name(name),
    ensures
        parts_from(base + name, at) == parts_from(base, at).push(
            (base.len() as int, (base.len() + name.len()) as int),
        ),
    decreases base.len() + 1 - at,
{
    let whole = base + name;
    lemma_segment_end(whole, at);
    if at < base.len() {
        lemma_segment_end(base, at);
        let end = segment_end(whole, at);
        assert(whole[base.len() - 1] == SLASH);
        assert(end < base.len());
        lemma_same_segment(whole, base, at, end);
        lemma_parts_append(base, name, end + 1);
        let last = (base.len() as int, (base.len() + name.len()) as int);
        if counts(base, at, end) {
            assert(seq![(at, end)] + parts_from(base, end + 1).push(last) =~= (seq![(at, end)]
                + parts_from(base, end + 1)).push(last));
        }
    } else {
        let end = segment_end(whole, at);
        assert(end == whole.len()) by {
            if end < whole.len() {
                assert(whole[end] == name[end - base.len()]);
            }
        }
        assert(counts(whole, at, end)) by {
            if end == at + 1 && whole[at] == DOT {
                assert(name =~= seq![DOT]);
            }
        }
        assert(parts_from(whole, end + 1) =~= Seq::empty());
        assert(parts_from(base, at) =~= Seq::empty());
        assert(parts_from(whole, at) =~= parts_from(base, at).push((at, end)));
    }
}

/// Joining a name to a path appends it as a component.
pub proof fn joining_a_name_appends_it(base: Seq<u8>, name: Seq<u8>)
    requires
        is_plain_name(name),
    ensures
        components(joined_path(base, name)) == components(base).push(name),
{
    assert(!is_rooted(name));
    let front = if base.len() > 0 && base.last() != SLASH {
        base.push(SLASH)
    } else {
        base
    };
    let whole = joined_path(base, name);
    assert(whole == front + name);
    let last = (front.len() as int, (front.len() + name.len()) as int);
    lemma_trailing_separator(base, 0);
    if base.len() > 0 {
        lemma_trailing_separator(base, 1);
    }
    assert(is_rooted(whole) == is_rooted(base)) by {
        if front.len() == 0 {
            assert(whole[0] == name[0]);
        } else {
            assert(whole[0] == front[0]);
        }
    }
    assert(parts(front) =~= parts(base));
    if is_rooted(base) {
        lemma_parts_append(front, name, 1);
        assert(parts(whole) =~= parts(front).push(last));
    } else {
        lemma_parts_append(front, name, 0);
        assert(parts(whole) =~= parts(front).push(last));
    }
    lemma_parts(base);
    assert forall|i: int| 0 <= i < components(whole).len() implies components(whole)[i]
        == components(base).push(name)[i] by {
        if i < parts(base).len() {
            let part = parts(base)[i];
            assert(parts(whole)[i] == part);
            assert(whole.subrange(part.0, part.1) =~= base.subrange(part.0, part.1));
        } else {
            assert(parts(whole)[i] == last);
            assert(whole.subrange(last.0, last.1) =~= name);
        }
    }
    assert(components(whole) =~= components(base).push(name));
}

/// A path with a name joined to it lies below it.
pub proof fn joined_path_starts_with_base(base: Seq<u8>, name: Seq<u8>, root: Seq<u8>)
    requires
        is_plain_name(name),
        path_starts_with(base, root),
    ensures
        path_starts_with(joined_path(base, name), root),
{
    joining_a_name_appends_it(base, name);
    let n = components(root).len() as int;
    assert(components(root) =~= components(joined_path(base, name)).subrange(0, n));
}

/// The last component of a path, where it is a name, holds no separator.
pub proof fn file_names_are_plain(bytes: Seq<u8>)
    ensures
        file_name_of(bytes) matches Some(name) ==> is_plain_name(name),
{
    if let Some(name) = file_name_of(bytes) {
        let all = parts(bytes);
        lemma_parts(bytes);
        let last = all.last();
        if is_rooted(bytes) && all.len() == 1 {
            assert(name =~= seq![SLASH]);
        } else if is_rooted(bytes) {
            let i = all.len() - 2;
            assert(last == parts_from(bytes, 1)[i]);
            lemma_parts_without_separators(bytes, 1, i);
        } else {
            lemma_parts_without_separators(bytes, 0, all.len() - 1);
        }
        assert forall|i: int| 0 <= i < name.len() implies name[i] != SLASH by {
            assert(name[i] == bytes[last.0 + i]);
        }
    }
}

proof fn lemma_parts_without_separators(bytes: Seq<u8>, at: int, k: int)
    requires
        0 <= at,
        0 <= k < parts_from(bytes, at).len(),
    ensures
        forall|i: int|
            parts_from(bytes, at)[k].0 <= i < parts_from(bytes, at)[k].1 ==> bytes[i] != SLASH,
    decreases bytes.len() + 1 - at,
{
    lemma_segment_end(bytes, at);
    let end = segment_end(bytes, at);
    if counts(bytes, at, end) {
        if k > 0 {
            assert(parts_from(bytes, at)[k] == parts_from(bytes, end + 1)[k - 1]);
            lemma_parts_without_separators(bytes, end + 1, k - 1);
        }
    } else {
        lemma_parts_without_separators(bytes, end + 1, k);
    }
}

/// The keys of two byte strings that differ at or after a place part somewhere.
proof fn lemma_bytes_keys_part(left: Seq<u8>, right: Seq<u8>, from: int) -> (place: int)
    requires
        left != right,
        0 <= from <= left.len(),
        from <= right.len(),
        forall|i: int| 0 <= i < from ==> left[i] == right[i],
    ensures
        order::part_at(bytes_key(left), bytes_key(right), place),
    decreases left.len() - from,
{
    if from == left.len() && from == right.len() {
        assert(left =~= right);
        from
    } else if from == left.len() || from == right.len() || left[from] != right[from] {
        from
    } else {
        lemma_bytes_keys_part(left, right, from + 1)
    }
}

/// The keys of two different byte strings part at a place that both have: none
/// is the start of the other.
pub proof fn bytes_keys_part(left: Seq<u8>, right: Seq<u8>) -> (place: int)
    requires
        left != right,
    ensures
        order::part_at(bytes_key(left), bytes_key(right), place),
{
    lemma_bytes_keys_part(left, right, 0)
}

proof fn lemma_components_key_front(all: Seq<Seq<u8>>)
    requires
        all.len() > 0,
    ensures
        components_key(all) == (seq![component_rank(all[0])] + bytes_key(all[0])) + components_key(
            all.drop_first(),
        ),
    decreases all.len(),
{
    let front = seq![component_rank(all[0])] + bytes_key(all[0]);
    let rest = all.drop_first();
    if all.len() == 1 {
        assert(rest =~= Seq::empty());
        assert(all.drop_last() =~= Seq::empty());
        assert(components_key(all) =~= front + components_key(rest));
    } else {
        lemma_components_key_front(all.drop_last());
        assert(all.drop_last().drop_first() =~= rest.drop_last());
        assert(components_key(all) =~= front + components_key(rest));
    }
}

proof fn lemma_components_key_injective(left: Seq<Seq<u8>>, right: Seq<Seq<u8>>)
    requires
        components_key(left) == components_key(right),
    ensures
        left == right,
    decreases left.len(),
{
    if left.len() > 0 {
        lemma_components_key_front(left);
    }
    if right.len() > 0 {
        lemma_components_key_front(right);
    }
    if left.len() == 0 || right.len() == 0 {
        assert(left =~= right);
    } else {
        let first = bytes_key(left[0]);
        let second = bytes_key(right[0]);
        let key = components_key(left);
        if left[0] != right[0] {
            let place = bytes_keys_part(left[0], right[0]);
            assert(key[place + 1] == first[place]);
            assert(key[place + 1] == second[place]);
        }
        let from = first.len() + 1;
        assert(components_key(left.drop_first()) =~= key.skip(from as int));
        assert(components_key(right.drop_first()) =~= key.skip(from as int));
        lemma_components_key_injective(left.drop_first(), right.drop_first());
        assert(left =~= seq![left[0]] + left.drop_first());
        assert(right =~= seq![right[0]] + right.drop_first());
    }
}

/// Two paths have the same sort key if and only if they are the same path.
pub proof fn path_keys_tell_paths_apart(left: Seq<u8>, right: Seq<u8>)
    ensures
        path_key(left) == path_key(right) <==> same_path(left, right),
{
    if path_key(left) == path_key(right) {
        lemma_components_key_injective(components(left), components(right));
    }
}

/// Names are ordered byte by byte, and a name comes before those that begin with
/// it.
pub proof fn names_are_ordered_byte_by_byte(left: Seq<u8>, right: Seq<u8>, place: int)
    requires
        0 <= place <= left.len(),
        place <= right.len(),
        forall|i: int| 0 <= i < place ==> left[i] == right[i],
    ensures
        place < left.len() && place < right.len() && left[place] < right[place] ==> order::precedes(
            bytes_key(left),
            bytes_key(right),
        ),
        place == left.len() && place < right.len() ==> order::precedes(
            bytes_key(left),
            bytes_key(right),
        ),
{
    if place < right.len() && (place == left.len() || left[place] < right[place]) {
        assert(order::part_at(bytes_key(left), bytes_key(right), place));
        order::the_smaller_number_comes_first(bytes_key(left), bytes_key(right), place);
    }
}

proof fn lemma_components_key_start(all: Seq<Seq<u8>>, count: int) -> (rest: Seq<u64>)
    requires
        0 <= count <= all.len(),
    ensures
        components_key(all) == components_key(all.take(count)) + rest,
        count == all.len() ==> rest.len() == 0,
        count < all.len() ==> rest.len() > 0 && exists|behind: Seq<u64>|
            rest == seq![component_rank(all[count])] + bytes_key(all[count]) + behind,
    decreases all.len() - count,
{
    if count == all.len() {
        assert(all.take(count) =~= all);
        let rest = Seq::<u64>::empty();
        assert(components_key(all) + rest =~= components_key(all));
        rest
    } else {
        let behind = lemma_components_key_start(all, count + 1);
        assert(all.take(count + 1).drop_last() =~= all.take(count));
        assert(all.take(count + 1).last() == all[count]);
        let own = seq![component_rank(all[count])] + bytes_key(all[count]);
        let rest = own + behind;
        assert(components_key(all.take(count + 1)) =~= components_key(all.take(count)) + own);
        assert(components_key(all) =~= components_key(all.take(count)) + rest);
        rest
    }
}

/// Paths are ordered by the first component in which they differ, and a path
/// comes before those that lie below it.
pub proof fn paths_are_ordered_component_by_component(left: Seq<u8>, right: Seq<u8>, place: int)
    requires
        0 <= place <= components(left).len(),
        place < components(right).len(),
        components(left).take(place) == components(right).take(place),
    ensures
        place == components(left).len() ==> order::precedes(path_key(left), path_key(right)),
        place < components(left).len() && component_rank(components(left)[place])
            == component_rank(components(right)[place]) && order::precedes(
            bytes_key(components(left)[place]),
            bytes_key(components(right)[place]),
        ) ==> order::precedes(path_key(left), path_key(right)),
{
    let start = components_key(components(left).take(place));
    let first = lemma_components_key_start(components(left), place);
    let second = lemma_components_key_start(components(right), place);
    if place == components(left).len() {
        assert(start + first =~= start);
        order::a_beginning_comes_first(start, second);
    } else {
        let one = components(left)[place];
        let other = components(right)[place];
        if component_rank(one) == component_rank(other) && order::precedes(
            bytes_key(one),
            bytes_key(other),
        ) {
            let after_one = choose|behind: Seq<u64>|
                first == seq![component_rank(one)] + bytes_key(one) + behind;
            let after_other = choose|behind: Seq<u64>|
                second == seq![component_rank(other)] + bytes_key(other) + behind;
            let rank = seq![component_rank(one)];
            assert(first =~= rank + (bytes_key(one) + after_one));
            assert(second =~= rank + (bytes_key(other) + after_other));
            let at = bytes_keys_part(one, other);
            order::the_first_difference_decides(
                bytes_key(one),
                bytes_key(other),
                after_one,
                after_other,
                at,
            );
            order::the_first_difference_decides(
                bytes_key(other),
                bytes_key(one),
                after_other,
                after_one,
                at,
            );
            let none = Seq::<u64>::empty();
            order::the_first_difference_decides(bytes_key(one), bytes_key(other), none, none, at);
            assert(bytes_key(one) + none =~= bytes_key(one));
            assert(bytes_key(other) + none =~= bytes_key(other));
            order::a_common_start_does_not_matter(
                rank,
                bytes_key(one) + after_one,
                bytes_key(other) + after_other,
            );
            order::a_common_start_does_not_matter(
                rank,
                bytes_key(other) + after_other,
                bytes_key(one) + after_one,
            );
            order::a_common_start_does_not_matter(start, first, second);
            order::a_common_start_does_not_matter(start, second, first);
        }
    }
}

proof fn lemma_after_last_dot(name: Seq<u8>)
    ensures
        0 <= after_last_dot(name) <= name.len(),
        after_last_dot(name) > 0 ==> name[after_last_dot(name) - 1] == 46,
        forall|i: int| after_last_dot(name) <= i < name.len() ==> #[trigger] name[i] != 46,
    decreases name.len(),
{
    if name.len() > 0 && name.last() != DOT {
        lemma_after_last_dot(name.drop_last());
        assert forall|i: int| after_last_dot(name) <= i < name.len() implies #[trigger] name[i]
            != 46 by {
            if i < name.len() - 1 {
                assert(name.drop_last()[i] == name[i]);
            }
        }
    }
}

/// An extension is what follows the last dot of a name, where something stands
/// before that dot.
pub proof fn extensions_follow_the_last_dot(bytes: Seq<u8>, stem: Seq<u8>, extension: Seq<u8>)
    requires
        file_name_of(bytes) == Some(stem.push(46) + extension),
        !extension.contains(46),
    ensures
        stem.len() > 0 ==> extension_of(bytes) == Some(extension),
        stem.len() == 0 ==> extension_of(bytes) is None,
{
    let name = stem.push(46) + extension;
    lemma_after_last_dot(name);
    let at = after_last_dot(name);
    let dot = stem.len() as int;
    assert(name[dot] == 46);
    assert(at >= dot + 1);
    if at > dot + 1 {
        assert(name[at - 1] == extension[at - 1 - dot - 1]);
        assert(extension.contains(46));
    }
    assert(name.skip(at) =~= extension);
}

/// A name without a dot has no extension.
pub proof fn plain_names_have_no_extension(bytes: Seq<u8>)
    requires
        file_name_of(bytes) is None || !file_name_of(bytes)->0.contains(46),
    ensures
        extension_of(bytes) is None,
{
    if file_name_of(bytes) is Some {
        let name = file_name_of(bytes)->0;
        lemma_after_last_dot(name);
        if after_last_dot(name) > 0 {
            assert(name.contains(name[after_last_dot(name) - 1]));
        }
    }
}

/// An absolute path takes the place of what it is joined to; any other follows
/// it behind one separator.
pub proof fn joined_paths_have_one_separator(base: Seq<u8>, name: Seq<u8>)
    ensures
        name.len() > 0 && name[0] == 47 ==> joined_path(base, name) == name,
        (name.len() == 0 || name[0] != 47) && base.len() == 0 ==> joined_path(base, name) == name,
        (name.len() == 0 || name[0] != 47) && base.len() > 0 && base.last() == 47 ==> joined_path(
            base,
            name,
        ) == base + name,
        (name.len() == 0 || name[0] != 47) && base.len() > 0 && base.last() != 47 ==> joined_path(
            base,
            name,
        ) == base.push(47) + name,
{
    assert(Seq::<u8>::empty() + name =~= name);
}

/// A point behind a separator is no component.
proof fn lemma_point_append(base: Seq<u8>, at: int)
    requires
        0 <= at <= base.len(),
        base.len() > 0,
        base.last() == SLASH,
    ensures
        parts_from(base.push(DOT), at) == parts_from(base, at),
    decreases base.len() + 1 - at,
{
    let whole = base.push(DOT);
    lemma_segment_end(whole, at);
    if at < base.len() {
        lemma_segment_end(base, at);
        let end = segment_end(whole, at);
        assert(whole[base.len() - 1] == SLASH);
        assert(end < base.len());
        lemma_same_segment(whole, base, at, end);
        lemma_point_append(base, end + 1);
    } else {
        let end = segment_end(whole, at);
        assert(whole[at] == DOT);
        assert(end == whole.len());
        assert(!counts(whole, at, end));
        assert(parts_from(whole, end + 1) =~= Seq::empty());
        assert(parts_from(base, at) =~= Seq::empty());
        assert(parts_from(whole, at) =~= parts_from(base, at));
    }
}

proof fn lemma_same_components(path: Seq<u8>, longer: Seq<u8>)
    requires
        parts(path) == parts(longer),
        path.is_prefix_of(longer),
    ensures
        components(path) == components(longer),
{
    lemma_parts(path);
    assert forall|i: int| 0 <= i < components(path).len() implies components(path)[i]
        == components(longer)[i] by {
        let part = parts(path)[i];
        assert(path.subrange(part.0, part.1) =~= longer.subrange(part.0, part.1));
    }
    assert(components(path) =~= components(longer));
}

/// A separator at the end of a path, or more of them, mean nothing, nor does a
/// point there.
pub proof fn needless_separators_mean_nothing(path: Seq<u8>)
    requires
        path.len() > 0,
    ensures
        components(path.push(47)) == components(path),
        components(path.push(47).push(47)) == components(path),
        components(path.push(47).push(46)) == components(path),
{
    let once = path.push(SLASH);
    let twice = once.push(SLASH);
    let point = once.push(DOT);
    lemma_trailing_separator(path, 0);
    lemma_trailing_separator(path, 1);
    lemma_trailing_separator(once, 0);
    lemma_trailing_separator(once, 1);
    lemma_point_append(once, 0);
    lemma_point_append(once, 1);
    assert(is_rooted(once) == is_rooted(path));
    assert(parts(once) =~= parts(path));
    assert(parts(twice) =~= parts(path));
    assert(parts(point) =~= parts(path));
    lemma_same_components(path, once);
    lemma_same_components(path, twice);
    lemma_same_components(path, point);
}

/// Nothing has no components, and a separator alone is one.
pub proof fn the_root_is_one_component()
    ensures
        components(Seq::empty()).len() == 0,
        components(seq![47u8]) == seq![seq![47u8]],
{
    let root = seq![47u8];
    assert(parts_from(root, 1) =~= Seq::empty());
    assert(parts(root) =~= seq![(0int, 1int)]);
    assert(root.subrange(0, 1) =~= root);
    assert(components(root) =~= seq![root]);
}

/// The root comes before a point, a point before two, and these before all names.
pub proof fn special_components_come_first(name: Seq<u8>)
    requires
        is_name(name),
    ensures
        component_rank(seq![47u8]) < component_rank(seq![46u8]),
        component_rank(seq![46u8]) < component_rank(seq![46u8, 46u8]),
        component_rank(seq![46u8, 46u8]) < component_rank(name),
{
    let one = seq![46u8];
    let two = seq![46u8, 46u8];
    let root = seq![47u8];
    assert(one[0] != root[0]);
    assert(two.len() != one.len());
    assert(two.len() != root.len());
}

} // verus!
