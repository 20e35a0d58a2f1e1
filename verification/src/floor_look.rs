//! What a codec session works out from a floor before the first block:
//! for a floor 1 the posts in ascending order, and for each post its
//! neighbours among the posts before it.

use crate::book::{place, rank_of, ranks, sorts_before};
use crate::buffer::IntBuffer;
use crate::decode_laws::{lemma_rank_onto, lemma_rank_order};
use crate::floor::{post_total, Floor1View, VorbisFloor0, VorbisFloor1, VIF_POSIT};
use vstd::prelude::*;

verus! {

/// What a session keeps for a floor 0.
#[derive(Debug, Clone, PartialEq, Eq)]
pub struct VorbisLookFloor0 {
    /// The size of the Bark-scale map.
    pub ln: i32,
    /// The order of the filter.
    pub m: i32,
    /// The map from spectral lines to the Bark scale, for each block
    /// size; it is empty until the first block asks for it.
    pub linearmap: Vec<Vec<i32>>,
    /// The block sizes that the maps are made for.
    pub n: [i32; 2],
    /// The bits spent on this floor.
    pub bits: i32,
    /// The frames coded with this floor.
    pub frames: i32,
}

impl VorbisFloor0 {
    /// What a session starts with for this floor.
    pub fn look(&self) -> (r: VorbisLookFloor0)
        ensures
            r.ln == self.barkmap,
            r.m == self.order,
            r.linearmap@.len() == 0,
            r.n@ == seq![0i32, 0i32],
            r.bits == 0,
            r.frames == 0,
    {
        let n: [i32; 2] = [0, 0];
        assert(n@ =~= seq![0i32, 0i32]);
        VorbisLookFloor0 { ln: self.barkmap, m: self.order, linearmap: Vec::new(), n, bits: 0, frames: 0 }
    }
}

/// What a session keeps for a floor 1.
#[derive(Debug, Clone, PartialEq, Eq)]
pub struct VorbisLookFloor1 {
    /// The positions of the posts in ascending order.
    pub sorted_index: IntBuffer,
    /// For each place of the ascending order, the post that stands there.
    pub forward_index: IntBuffer,
    /// For each post, its place in the ascending order.
    pub reverse_index: IntBuffer,
    /// For each post behind the first two, the nearest post above it
    /// among the posts before it.
    pub hineighbor: IntBuffer,
    /// For each post behind the first two, the nearest post below it
    /// among the posts before it.
    pub loneighbor: IntBuffer,
    /// The number of posts.
    pub posts: usize,
    /// The position of the last line of the spectrum.
    pub n: i32,
    /// The number of values that the height of a post can take.
    pub quant_q: i32,
    /// The bits spent on class numbers.
    pub phrasebits: i32,
    /// The bits spent on posts.
    pub postbits: i32,
    /// The frames coded with this floor.
    pub frames: i32,
}

/// The class of partition `i` is a class with a number of posts.
pub open spec fn class_known(f: Floor1View, i: int) -> bool {
    0 <= f.partitions_class[i] < f.class_dim.len() && f.class_dim[f.partitions_class[i] as int] >= 0
}

/// The classes of the partitions from `from` up to `to` are known.
pub open spec fn classes_known(f: Floor1View, from: int, to: int) -> bool {
    forall|i: int| from <= i < to ==> #[trigger] class_known(f, i)
}

/// The number of posts of a floor 1: the two at the ends and those of
/// its partitions.
pub open spec fn post_count(f: Floor1View) -> int {
    2 + post_total(f.partitions_class, f.class_dim, f.partitions as int)
}

/// The partitions of the floor are there, their classes are known, and
/// they have no more posts than a floor can have.
pub open spec fn posts_counted(f: Floor1View) -> bool {
    &&& 0 <= f.partitions <= f.partitions_class.len()
    &&& classes_known(f, 0, f.partitions as int)
    &&& post_total(f.partitions_class, f.class_dim, f.partitions as int) <= VIF_POSIT
}

/// A session can be set up for the floor: its multiplier is one of the
/// four, and it holds a position for each of the posts that its
/// partitions ask for, of which there are no more than a floor can have.
pub open spec fn can_look(f: Floor1View) -> bool {
    &&& 1 <= f.mult <= 4
    &&& posts_counted(f)
    &&& post_count(f) <= f.postlist.len()
}

/// The number of values that the height of a post can take with the
/// multiplier `mult`.
pub open spec fn quant_levels(mult: i32) -> i32 {
    if mult == 1 {
        256
    } else if mult == 2 {
        128
    } else if mult == 3 {
        86
    } else {
        64
    }
}

/// A number that grows with the position `x` and is not negative.
pub open spec fn post_key(x: i32) -> u32 {
    (x + 0x8000_0000) as u32
}

/// The keys of the first `n` posts.
pub open spec fn post_keys(posts: Seq<i32>, n: int) -> Seq<u32> {
    Seq::new(n as nat, |i: int| post_key(posts[i]))
}

/// `lo` is the neighbour below the position `cur` among the first `m`
/// posts: the first of them that has the greatest position above 0 and
/// below `cur`, and post 0 if none lies there.
pub open spec fn low_neighbor(posts: Seq<i32>, m: int, cur: i32, lo: int) -> bool {
    if forall|j: int| 0 <= j < m ==> !(0 < #[trigger] posts[j] < cur) {
        lo == 0
    } else {
        &&& 0 <= lo < m
        &&& 0 < posts[lo] < cur
        &&& forall|j: int| 0 <= j < m && #[trigger] posts[j] < cur ==> posts[j] <= posts[lo]
        &&& forall|j: int| 0 <= j < lo && #[trigger] posts[j] < cur ==> posts[j] < posts[lo]
    }
}

/// `hi` is the neighbour above the position `cur` among the first `m`
/// posts: the first of them that has the least position above `cur` and
/// below `top`, and post 1 if none lies there.
pub open spec fn high_neighbor(posts: Seq<i32>, m: int, cur: i32, top: i32, hi: int) -> bool {
    if forall|j: int| 0 <= j < m ==> !(cur < #[trigger] posts[j] < top) {
        hi == 1
    } else {
        &&& 0 <= hi < m
        &&& cur < posts[hi] < top
        &&& forall|j: int| 0 <= j < m && cur < #[trigger] posts[j] < top ==> posts[hi] <= posts[j]
        &&& forall|j: int| 0 <= j < hi && cur < #[trigger] posts[j] < top ==> posts[hi] < posts[j]
    }
}

/// What a session keeps for the floor `f`.
pub open spec fn is_floor1_look(f: Floor1View, r: VorbisLookFloor1) -> bool {
    let n = post_count(f);
    let keys = post_keys(f.postlist, n);
    &&& r.posts == n
    &&& r.n == f.postlist[1]
    &&& r.quant_q == quant_levels(f.mult)
    &&& r.phrasebits == 0
    &&& r.postbits == 0
    &&& r.frames == 0
    &&& r.reverse_index@.len() == n
    &&& r.forward_index@.len() == n
    &&& r.sorted_index@.len() == n
    &&& forall|i: int| 0 <= i < n ==> #[trigger] r.reverse_index@[i] == rank_of(keys, i)
    &&& forall|i: int| 0 <= i < n ==> r.forward_index@[#[trigger] rank_of(keys, i)] == i
    &&& forall|i: int| 0 <= i < n ==> r.sorted_index@[#[trigger] rank_of(keys, i)] == f.postlist[i]
    &&& r.loneighbor@.len() == n - 2
    &&& r.hineighbor@.len() == n - 2
    &&& forall|i: int|
        0 <= i < n - 2 ==> low_neighbor(f.postlist, i + 2, f.postlist[i + 2], #[trigger] r.loneighbor@[i] as int)
    &&& forall|i: int|
        0 <= i < n - 2 ==> high_neighbor(
            f.postlist,
            i + 2,
            f.postlist[i + 2],
            f.postlist[1],
            #[trigger] r.hineighbor@[i] as int,
        )
}

/// With known classes the number of posts grows with the partitions.
proof fn lemma_post_total_grows(f: Floor1View, from: int, to: int)
    requires
        0 <= from <= to,
        classes_known(f, from, to),
    ensures
        post_total(f.partitions_class, f.class_dim, from) <= post_total(f.partitions_class, f.class_dim, to),
    decreases to - from,
{
    if from < to {
        assert(class_known(f, to - 1));
        lemma_post_total_grows(f, from, to - 1);
    }
}

/// The position `x` as a key.
fn key_of(x: i32) -> (k: u32)
    ensures
        k == post_key(x),
{
    let wide: i64 = x as i64 + 0x8000_0000;
    wide as u32
}

/// The first `n` items of a buffer.
fn first_items(b: &IntBuffer, n: usize) -> (v: Vec<i32>)
    requires
        n <= b@.len(),
    ensures
        v@ == b@.take(n as int),
{
    let mut v: Vec<i32> = Vec::new();
    let mut i: usize = 0;
    while i < n
        invariant
            i <= n <= b@.len(),
            v@ == b@.take(i as int),
        decreases n - i,
    {
        v.push(b.at(i));
        assert(v@ =~= b@.take(i + 1));
        i += 1;
    }
    v
}

/// The neighbour below post `m` among the posts before it.
fn neighbor_below(posts: &Vec<i32>, m: usize) -> (lo: i32)
    requires
        m < posts@.len(),
        m <= 0x7fff_ffff,
    ensures
        low_neighbor(posts@, m as int, posts@[m as int], lo as int),
        0 <= lo,
        lo < m || lo == 0,
{
    let cur = posts[m];
    let mut lo: usize = 0;
    let mut lx: i32 = 0;
    let mut j: usize = 0;
    while j < m
        invariant
            j <= m < posts@.len(),
            cur == posts@[m as int],
            low_neighbor(posts@, j as int, cur, lo as int),
            lo < j || lo == 0,
            lx == 0 <==> forall|k: int| 0 <= k < j ==> !(0 < #[trigger] posts@[k] < cur),
            lx != 0 ==> lx == posts@[lo as int],
            0 <= lx,
        decreases m - j,
    {
        let x = posts[j];
        if x > lx && x < cur {
            lo = j;
            lx = x;
        }
        j += 1;
    }
    lo as i32
}

/// The neighbour above post `m` among the posts before it, `top` being
/// the position that it must lie below.
fn neighbor_above(posts: &Vec<i32>, m: usize, top: i32) -> (hi: i32)
    requires
        m < posts@.len(),
        m <= 0x7fff_ffff,
    ensures
        high_neighbor(posts@, m as int, posts@[m as int], top, hi as int),
        0 <= hi,
        hi < m || hi == 1,
{
    let cur = posts[m];
    let mut hi: usize = 1;
    let mut hx: i32 = top;
    let mut found: bool = false;
    let mut j: usize = 0;
    while j < m
        invariant
            j <= m < posts@.len(),
            cur == posts@[m as int],
            high_neighbor(posts@, j as int, cur, top, hi as int),
            hi < j || hi == 1,
            !found <==> forall|k: int| 0 <= k < j ==> !(cur < #[trigger] posts@[k] < top),
            found ==> hx == posts@[hi as int] && hi < j,
            !found ==> hx == top,
        decreases m - j,
    {
        let x = posts[j];
        if x > cur && x < hx {
            hi = j;
            hx = x;
            found = true;
        }
        j += 1;
    }
    hi as i32
}

impl VorbisFloor1 {
    /// The number of posts of the partitions, where the partitions are
    /// there, their classes are known and the posts are no more than a
    /// floor can have.
    fn count_posts(&self) -> (r: Option<usize>)
        ensures
            r.is_some() == posts_counted(self@),
            r matches Some(total) ==> total == post_total(
                self.partitions_class@,
                self.class_dim@,
                self.partitions as int,
            ),
    {
        let ghost f = self@;
        if self.partitions < 0 || self.partitions as usize > self.partitions_class.len() {
            return None;
        }
        let parts = self.partitions as usize;
        let mut total: usize = 0;
        let mut i: usize = 0;
        while i < parts
            invariant
                i <= parts,
                f == self@,
                parts == self.partitions,
                parts <= self.partitions_class@.len(),
                classes_known(f, 0, i as int),
                total == post_total(f.partitions_class, f.class_dim, i as int),
                total <= VIF_POSIT,
            decreases parts - i,
        {
            let c = self.partitions_class.at(i);
            if c < 0 || c as usize >= self.class_dim.len() {
                assert(!class_known(f, i as int));
                return None;
            }
            let d = self.class_dim.at(c as usize);
            if d < 0 {
                assert(!class_known(f, i as int));
                return None;
            }
            assert(class_known(f, i as int));
            if d as usize > VIF_POSIT - total {
                proof {
                    if classes_known(f, 0, parts as int) {
                        lemma_post_total_grows(f, i + 1, parts as int);
                    }
                }
                return None;
            }
            total = total + d as usize;
            i += 1;
        }
        Some(total)
    }

    /// Whether a session can be set up for this floor.
    pub fn can_look(&self) -> (b: bool)
        ensures
            b == can_look(self@),
    {
        if self.mult < 1 || self.mult > 4 {
            return false;
        }
        match self.count_posts() {
            Some(total) => total + 2 <= self.postlist.len(),
            None => false,
        }
    }

    /// What a session starts with for this floor: the posts in ascending
    /// order, posts at one position in the order of the floor; where each
    /// post stands in that order; and for each post behind the first two
    /// its neighbours among the posts before it.
    pub fn look(&self) -> (r: VorbisLookFloor1)
        requires
            can_look(self@),
        ensures
            is_floor1_look(self@, r),
            forall|a: int|
                0 <= a < post_count(self@) ==> 0 <= #[trigger] r.forward_index@[a] < post_count(self@)
                    && r.reverse_index@[r.forward_index@[a] as int] == a && r.sorted_index@[a]
                    == self.postlist@[r.forward_index@[a] as int],
            forall|a: int, b: int|
                0 <= a < b < post_count(self@) ==> #[trigger] r.sorted_index@[a] <= #[trigger] r.sorted_index@[b],
            forall|a: int, b: int|
                0 <= a < b < post_count(self@) && r.sorted_index@[a] == r.sorted_index@[b]
                    ==> #[trigger] r.forward_index@[a] < #[trigger] r.forward_index@[b],
    {
        let ghost f = self@;
        let total = match self.count_posts() {
            Some(total) => total,
            None => 0,
        };
        let n: usize = total + 2;
        let posts = first_items(&self.postlist, n);
        let ghost keyseq = post_keys(f.postlist, n as int);
        let mut keys: Vec<u32> = Vec::new();
        let mut order: Vec<i32> = Vec::new();
        let mut i: usize = 0;
        while i < n
            invariant
                i <= n,
                n <= VIF_POSIT + 2,
                posts@ == f.postlist.take(n as int),
                n <= f.postlist.len(),
                keys@.len() == i,
                order@.len() == i,
                forall|k: int| 0 <= k < i ==> #[trigger] keys@[k] == post_key(f.postlist[k]),
                forall|k: int| 0 <= k < i ==> #[trigger] order@[k] == k,
            decreases n - i,
        {
            keys.push(key_of(posts[i]));
            order.push(i as i32);
            i += 1;
        }
        assert(keys@ =~= keyseq);
        let places = ranks(&keys);
        proof {
            assert forall|a: int, b: int|
                0 <= a < places@.len() && 0 <= b < places@.len() && a != b implies #[trigger] places@[a]
                != #[trigger] places@[b] by {
                lemma_rank_order(keyseq, a, b);
            }
        }
        let forward = place(&order, &places, 0);
        let sorted = place(&posts, &places, 0);
        proof {
            assert forall|k: int| 0 <= k < n implies forward@[#[trigger] rank_of(keyseq, k)] == k
                && sorted@[rank_of(keyseq, k)] == f.postlist[k] by {
                assert(places@[k] == rank_of(keyseq, k));
                assert(forward@[places@[k] as int] == order@[k]);
                assert(sorted@[places@[k] as int] == posts@[k]);
            }
        }
        let mut reverse: Vec<i32> = Vec::new();
        let mut lows: Vec<i32> = Vec::new();
        let mut highs: Vec<i32> = Vec::new();
        let mut i: usize = 0;
        while i < n
            invariant
                i <= n,
                n <= VIF_POSIT + 2,
                places@.len() == n,
                forall|k: int| 0 <= k < n ==> (#[trigger] places@[k]) < n,
                reverse@.len() == i,
                forall|k: int| 0 <= k < i ==> #[trigger] reverse@[k] == places@[k],
            decreases n - i,
        {
            reverse.push(places[i] as i32);
            i += 1;
        }
        let top = posts[1];
        let mut i: usize = 2;
        while i < n
            invariant
                2 <= i <= n,
                n <= VIF_POSIT + 2,
                n == posts@.len(),
                top == posts@[1],
                lows@.len() == i - 2,
                highs@.len() == i - 2,
                forall|k: int|
                    0 <= k < i - 2 ==> low_neighbor(posts@, k + 2, posts@[k + 2], #[trigger] lows@[k] as int),
                forall|k: int|
                    0 <= k < i - 2 ==> high_neighbor(
                        posts@,
                        k + 2,
                        posts@[k + 2],
                        top,
                        #[trigger] highs@[k] as int,
                    ),
            decreases n - i,
        {
            lows.push(neighbor_below(&posts, i));
            highs.push(neighbor_above(&posts, i, top));
            i += 1;
        }
        let quant_q: i32 = if self.mult == 1 {
            256
        } else if self.mult == 2 {
            128
        } else if self.mult == 3 {
            86
        } else {
            64
        };
        let r = VorbisLookFloor1 {
            sorted_index: IntBuffer::from_slice(sorted.as_slice()),
            forward_index: IntBuffer::from_slice(forward.as_slice()),
            reverse_index: IntBuffer::from_slice(reverse.as_slice()),
            hineighbor: IntBuffer::from_slice(highs.as_slice()),
            loneighbor: IntBuffer::from_slice(lows.as_slice()),
            posts: n,
            n: top,
            quant_q,
            phrasebits: 0,
            postbits: 0,
            frames: 0,
        };
        proof {
            lemma_neighbors_of_prefix(f.postlist, posts@, n as int, r.loneighbor@, r.hineighbor@);
            assert(is_floor1_look(f, r));
            lemma_look_in_order(f, r);
        }
        r
    }
}

/// The neighbours of a post depend on the posts before it only.
proof fn lemma_neighbors_of_prefix(all: Seq<i32>, posts: Seq<i32>, n: int, lows: Seq<i32>, highs: Seq<i32>)
    requires
        2 <= n <= all.len(),
        posts == all.take(n),
        lows.len() == n - 2,
        highs.len() == n - 2,
        forall|k: int| 0 <= k < n - 2 ==> low_neighbor(posts, k + 2, posts[k + 2], #[trigger] lows[k] as int),
        forall|k: int|
            0 <= k < n - 2 ==> high_neighbor(posts, k + 2, posts[k + 2], posts[1], #[trigger] highs[k] as int),
    ensures
        forall|k: int| 0 <= k < n - 2 ==> low_neighbor(all, k + 2, all[k + 2], #[trigger] lows[k] as int),
        forall|k: int|
            0 <= k < n - 2 ==> high_neighbor(all, k + 2, all[k + 2], all[1], #[trigger] highs[k] as int),
{
    assert forall|j: int| 0 <= j < n implies #[trigger] posts[j] == all[j] by {}
    assert forall|k: int| 0 <= k < n - 2 implies low_neighbor(all, k + 2, all[k + 2], #[trigger] lows[k] as int) by {
        assert(low_neighbor(posts, k + 2, posts[k + 2], lows[k] as int));
        assert(forall|j: int| 0 <= j < k + 2 ==> #[trigger] all[j] == posts[j]);
    }
    assert forall|k: int|
        0 <= k < n - 2 implies high_neighbor(all, k + 2, all[k + 2], all[1], #[trigger] highs[k] as int) by {
        assert(high_neighbor(posts, k + 2, posts[k + 2], posts[1], highs[k] as int));
        assert(forall|j: int| 0 <= j < k + 2 ==> #[trigger] all[j] == posts[j]);
    }
}

/// The posts of a session stand in ascending order, posts at one
/// position in the order of the floor, and each place of the order
/// holds one post.
pub proof fn lemma_look_in_order(f: Floor1View, r: VorbisLookFloor1)
    requires
        can_look(f),
        is_floor1_look(f, r),
    ensures
        forall|a: int|
            0 <= a < post_count(f) ==> 0 <= #[trigger] r.forward_index@[a] < post_count(f)
                && r.reverse_index@[r.forward_index@[a] as int] == a && r.sorted_index@[a]
                == f.postlist[r.forward_index@[a] as int],
        forall|a: int, b: int|
            0 <= a < b < post_count(f) ==> #[trigger] r.sorted_index@[a] <= #[trigger] r.sorted_index@[b],
        forall|a: int, b: int|
            0 <= a < b < post_count(f) && r.sorted_index@[a] == r.sorted_index@[b]
                ==> #[trigger] r.forward_index@[a] < #[trigger] r.forward_index@[b],
{
    let n = post_count(f);
    let keys = post_keys(f.postlist, n);
    assert forall|a: int| 0 <= a < n implies 0 <= #[trigger] r.forward_index@[a] < n
        && r.reverse_index@[r.forward_index@[a] as int] == a && r.sorted_index@[a]
        == f.postlist[r.forward_index@[a] as int] by {
        lemma_rank_onto(keys, a);
        let i = choose|i: int| 0 <= i < keys.len() && #[trigger] rank_of(keys, i) == a;
        assert(r.forward_index@[rank_of(keys, i)] == i);
    }
    assert forall|a: int, b: int| 0 <= a < b < n implies #[trigger] r.sorted_index@[a]
        <= #[trigger] r.sorted_index@[b] && (r.sorted_index@[a] == r.sorted_index@[b]
        ==> r.forward_index@[a] < r.forward_index@[b]) by {
        lemma_rank_onto(keys, a);
        lemma_rank_onto(keys, b);
        let i = choose|i: int| 0 <= i < keys.len() && #[trigger] rank_of(keys, i) == a;
        let j = choose|j: int| 0 <= j < keys.len() && #[trigger] rank_of(keys, j) == b;
        assert(r.forward_index@[rank_of(keys, i)] == i);
        assert(r.forward_index@[rank_of(keys, j)] == j);
        assert(r.sorted_index@[rank_of(keys, i)] == f.postlist[i]);
        assert(r.sorted_index@[rank_of(keys, j)] == f.postlist[j]);
        lemma_rank_order(keys, i, j);
        assert(sorts_before(keys, i, j));
    }
}

} // verus!
