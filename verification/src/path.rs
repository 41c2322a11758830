//! Object paths: slash-separated strings that address one entity relative
//! to another.
//!
//! A path is split at every `/` into segments, and the segments are
//! consumed from left to right:
//!
//! * an empty segment or `.` stays at the current entity;
//! * `..` moves to its parent, and fails where it has none;
//! * `*` tries each child in the order in which the world lists them and
//!   keeps the first for which the rest of the path resolves;
//! * any other segment moves to the first child whose name is exactly that
//!   segment, and fails where no child has that name.
//!
//! When no segment is left, the current entity is the result.

use crate::hierarchy::{hierarchy_of, Hierarchy};
use crate::host::{children_of, name_of, parent_of};
use bevy_ecs::world::World;
use vstd::prelude::*;
use vstd::string::*;

verus! {

/// The segments of a path: the text between its `/` characters. A path with
/// `n` slashes has `n + 1` segments, so that the empty path has one empty
/// segment.
pub open spec fn split(path: Seq<char>) -> Seq<Seq<char>>
    decreases path.len(),
{
    if path.len() == 0 {
        seq![Seq::empty()]
    } else {
        let before = split(path.drop_last());
        if path.last() == '/' {
            before.push(Seq::empty())
        } else {
            before.drop_last().push(before.last().push(path.last()))
        }
    }
}

/// Segments written one after the other with a `/` between each two.
pub open spec fn join(segments: Seq<Seq<char>>) -> Seq<char>
    decreases segments.len(),
{
    if segments.len() == 0 {
        Seq::empty()
    } else if segments.len() == 1 {
        segments[0]
    } else {
        join(segments.drop_last()) + seq!['/'] + segments.last()
    }
}

/// The segment stands for the current entity: it is empty or `.`.
pub open spec fn is_current(segment: Seq<char>) -> bool {
    segment.len() == 0 || segment == seq!['.']
}

/// The segment stands for the parent: it is `..`.
pub open spec fn is_parent(segment: Seq<char>) -> bool {
    segment == seq!['.', '.']
}

/// The segment stands for any child: it is `*`.
pub open spec fn is_any(segment: Seq<char>) -> bool {
    segment == seq!['*']
}

/// The segment is a literal name: none of the special segments.
pub open spec fn is_literal(segment: Seq<char>) -> bool {
    !is_current(segment) && !is_parent(segment) && !is_any(segment)
}

/// The character sequences that a list of strings holds.
pub open spec fn texts(strings: Seq<String>) -> Seq<Seq<char>> {
    Seq::new(strings.len(), |i: int| strings[i]@)
}

impl Hierarchy {
    /// The first entity of `candidates` whose name is exactly `name`.
    pub open spec fn first_named(self, candidates: Seq<u64>, name: Seq<char>) -> Option<u64>
        decreases candidates.len(),
    {
        if candidates.len() == 0 {
            None
        } else if self.name(candidates[0]) == Some(name) {
            Some(candidates[0])
        } else {
            self.first_named(candidates.drop_first(), name)
        }
    }

    /// The entity that the segments lead to from `start`, if they lead
    /// anywhere.
    pub open spec fn resolve(self, start: u64, segments: Seq<Seq<char>>) -> Option<u64>
        decreases segments.len(), 0nat,
    {
        if segments.len() == 0 {
            Some(start)
        } else {
            let head = segments[0];
            let tail = segments.drop_first();
            if is_current(head) {
                self.resolve(start, tail)
            } else if is_parent(head) {
                match self.parent(start) {
                    Some(parent) => self.resolve(parent, tail),
                    None => None,
                }
            } else if is_any(head) {
                self.resolve_first(self.children(start), tail)
            } else {
                match self.first_named(self.children(start), head) {
                    Some(child) => self.resolve(child, tail),
                    None => None,
                }
            }
        }
    }

    /// What the segments lead to from the first entity of `candidates` from
    /// which they lead anywhere.
    pub open spec fn resolve_first(self, candidates: Seq<u64>, segments: Seq<Seq<char>>) -> Option<
        u64,
    >
        decreases segments.len(), candidates.len() + 1,
    {
        if candidates.len() == 0 {
            None
        } else {
            match self.resolve(candidates[0], segments) {
                Some(found) => Some(found),
                None => self.resolve_first(candidates.drop_first(), segments),
            }
        }
    }

    /// The name of `entity`, or the empty text where it has none.
    pub open spec fn label(self, entity: u64) -> Seq<char> {
        match self.name(entity) {
            Some(name) => name,
            None => Seq::empty(),
        }
    }

    /// The labels of a chain that is listed from an entity up to its root,
    /// written root first with a `/` between each two.
    pub open spec fn join_labels(self, chain: Seq<u64>) -> Seq<char>
        decreases chain.len(),
    {
        if chain.len() == 0 {
            Seq::empty()
        } else if chain.len() == 1 {
            self.label(chain[0])
        } else {
            self.join_labels(chain.drop_first()) + seq!['/'] + self.label(chain[0])
        }
    }

    /// The path of `entity`: the labels of its root, of every ancestor
    /// down to its parent, and its own, with a `/` between each two.
    pub open spec fn path(self, entity: u64) -> Seq<char> {
        self.join_labels(self.self_and_ancestors(entity))
    }
}

/// Splits a path into its segments.
pub fn split_path(path: &str) -> (segments: Vec<String>)
    ensures
        texts(segments@) == split(path@),
{
    let n = path.unicode_len();
    let mut segments: Vec<String> = Vec::new();
    let mut start: usize = 0;
    let mut i: usize = 0;
    assert(path@.take(0) =~= Seq::<char>::empty());
    assert(texts(segments@).push(path@.subrange(0, 0)) =~= seq![Seq::<char>::empty()]);
    while i < n
        invariant
            n == path@.len(),
            start <= i <= n,
            split(path@.take(i as int)) == texts(segments@).push(
                path@.subrange(start as int, i as int),
            ),
        decreases n - i,
    {
        let ghost done = texts(segments@);
        let ghost prefix = path@.take(i as int);
        let ghost longer = path@.take(i + 1);
        let c = path.get_char(i);
        assert(longer.drop_last() =~= prefix);
        assert(longer.last() == c);
        if c == '/' {
            segments.push(String::from_str(path.substring_char(start, i)));
            assert(texts(segments@) =~= done.push(path@.subrange(start as int, i as int)));
            start = i + 1;
            assert(path@.subrange(start as int, start as int) =~= Seq::<char>::empty());
        } else {
            let ghost open = path@.subrange(start as int, i as int);
            assert(done.push(open).drop_last() =~= done);
            assert(open.push(c) =~= path@.subrange(start as int, i + 1));
        }
        i = i + 1;
    }
    let ghost done = texts(segments@);
    assert(path@.take(n as int) =~= path@);
    segments.push(String::from_str(path.substring_char(start, n)));
    assert(texts(segments@) =~= done.push(path@.subrange(start as int, n as int)));
    segments
}

/// Whether `segment` holds exactly the characters of `text`.
fn is_text(segment: &String, text: &str) -> (same: bool)
    ensures
        same == (segment@ == text@),
{
    let other = String::from_str(text);
    *segment == other
}

/// The first entity of `candidates` whose name is exactly `name`.
fn find_named(world: &World, candidates: &Vec<u64>, name: &String) -> (found: Option<u64>)
    ensures
        found == hierarchy_of(*world).first_named(candidates@, name@),
{
    let ghost h = hierarchy_of(*world);
    let mut i: usize = 0;
    assert(candidates@.skip(0) =~= candidates@);
    while i < candidates.len()
        invariant
            h == hierarchy_of(*world),
            i <= candidates.len(),
            h.first_named(candidates@, name@) == h.first_named(
                candidates@.skip(i as int),
                name@,
            ),
        decreases candidates.len() - i,
    {
        let ghost rest = candidates@.skip(i as int);
        assert(rest.drop_first() =~= candidates@.skip(i + 1));
        assert(rest[0] == candidates@[i as int]);
        match name_of(world, candidates[i]) {
            Some(text) => {
                if is_text(name, text) {
                    return Some(candidates[i]);
                }
            },
            None => {},
        }
        i = i + 1;
    }
    None
}

/// Resolves the segments from index `from` on, starting at `start`.
fn resolve_from(world: &World, start: u64, segments: &Vec<String>, from: usize) -> (found: Option<
    u64,
>)
    requires
        from <= segments.len(),
    ensures
        found == hierarchy_of(*world).resolve(start, texts(segments@).skip(from as int)),
    decreases segments.len() - from,
{
    let ghost h = hierarchy_of(*world);
    let ghost left = texts(segments@).skip(from as int);
    if from == segments.len() {
        return Some(start);
    }
    let head = &segments[from];
    let ghost tail = texts(segments@).skip(from + 1);
    proof {
        assert(left[0] == head@);
        assert(left.drop_first() =~= tail);
        reveal_strlit(".");
        reveal_strlit("..");
        reveal_strlit("*");
        reveal_strlit("");
        assert("."@ =~= seq!['.']);
        assert(".."@ =~= seq!['.', '.']);
        assert("*"@ =~= seq!['*']);
        assert(""@ =~= Seq::<char>::empty());
        assert(is_current(head@) <==> head@ == "."@ || head@ == ""@) by {
            if head@.len() == 0 {
                assert(head@ =~= ""@);
            }
        }
        assert(is_parent(head@) <==> head@ == ".."@);
        assert(is_any(head@) <==> head@ == "*"@);
    }
    if is_text(head, ".") || is_text(head, "") {
        resolve_from(world, start, segments, from + 1)
    } else if is_text(head, "..") {
        match parent_of(world, start) {
            Some(parent) => resolve_from(world, parent, segments, from + 1),
            None => None,
        }
    } else if is_text(head, "*") {
        let candidates = children_of(world, start);
        let mut i: usize = 0;
        assert(candidates@.skip(0) =~= candidates@);
        while i < candidates.len()
            invariant
                h == hierarchy_of(*world),
                from < segments.len(),
                tail == texts(segments@).skip(from + 1),
                left == texts(segments@).skip(from as int),
                i <= candidates.len(),
                h.resolve(start, left) == h.resolve_first(candidates@, tail),
                h.resolve_first(candidates@, tail) == h.resolve_first(
                    candidates@.skip(i as int),
                    tail,
                ),
            decreases candidates.len() - i,
        {
            let ghost rest = candidates@.skip(i as int);
            assert(rest.drop_first() =~= candidates@.skip(i + 1));
            assert(rest[0] == candidates@[i as int]);
            let found = resolve_from(world, candidates[i], segments, from + 1);
            if found.is_some() {
                return found;
            }
            i = i + 1;
        }
        None
    } else {
        let candidates = children_of(world, start);
        match find_named(world, &candidates, head) {
            Some(child) => resolve_from(world, child, segments, from + 1),
            None => None,
        }
    }
}

/// Finds the entity that `path` addresses relative to `start`.
///
/// The walk follows parent and child links segment by segment and ends with
/// the last segment, so it terminates whatever the hierarchy holds.
pub fn find_by_path(world: &World, start: u64, path: &str) -> (found: Option<u64>)
    ensures
        found == hierarchy_of(*world).resolve(start, split(path@)),
{
    let segments = split_path(path);
    assert(texts(segments@).skip(0) =~= texts(segments@));
    resolve_from(world, start, &segments, 0)
}

} // verus!
