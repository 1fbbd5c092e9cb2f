//! Landmark distances for goal-directed route search.
use vstd::prelude::*;
use crate::bytes::{be_value, get_u32_from_byte_array};

verus! {

/// The distances from a landmark `source` to every node, and from every
/// node to it.
#[derive(Debug)]
pub struct Waypoint {
    pub source: u32,
    pub distances_to: Vec<u32>,
    pub distances_from: Vec<u32>,
}

impl Waypoint {
    pub fn new(source: u32, distances_to: Vec<u32>, distances_from: Vec<u32>) -> (r: Waypoint)
        ensures
            r.source == source,
            r.distances_to@ == distances_to@,
            r.distances_from@ == distances_from@,
    {
        Waypoint { source, distances_to, distances_from }
    }
}

/// The lower bound on the distance from `source` to `goal` that one
/// landmark gives: the larger of the two triangle-inequality bounds, each
/// taken as zero when negative.
pub open spec fn landmark_bound(w: Waypoint, source: int, goal: int) -> u32 {
    let to = w.distances_to@;
    let from = w.distances_from@;
    let d1: u32 = if to[source] > to[goal] {
        0
    } else {
        (to[goal] - to[source]) as u32
    };
    let d2: u32 = if from[goal] > from[source] {
        0
    } else {
        (from[source] - from[goal]) as u32
    };
    if d1 >= d2 {
        d1
    } else {
        d2
    }
}

/// Every landmark knows the distances of both nodes.
pub open spec fn covers(ws: Seq<Waypoint>, source: int, goal: int) -> bool {
    forall|k: int|
        0 <= k < ws.len() ==> {
            &&& 0 <= source < (#[trigger] ws[k]).distances_to@.len()
            &&& 0 <= goal < ws[k].distances_to@.len()
            &&& source < ws[k].distances_from@.len()
            &&& goal < ws[k].distances_from@.len()
        }
}

/// The best lower bound that the landmarks give on the distance from
/// `source` to `goal`: the largest of their bounds.
pub fn get_waypoint_cost(source: usize, goal: usize, waypoints: &Vec<Waypoint>) -> (r: u32)
    requires
        waypoints@.len() >= 1,
        covers(waypoints@, source as int, goal as int),
    ensures
        forall|k: int|
            0 <= k < waypoints@.len() ==> landmark_bound(#[trigger] waypoints@[k], source as int, goal as int)
                <= r,
        exists|k: int|
            0 <= k < waypoints@.len() && landmark_bound(#[trigger] waypoints@[k], source as int, goal as int)
                == r,
{
    let mut best: u32 = 0;
    let mut i: usize = 0;
    while i < waypoints.len()
        invariant
            i <= waypoints@.len(),
            covers(waypoints@, source as int, goal as int),
            forall|k: int|
                0 <= k < i ==> landmark_bound(#[trigger] waypoints@[k], source as int, goal as int)
                    <= best,
            i > 0 ==> exists|k: int|
                0 <= k < i && landmark_bound(#[trigger] waypoints@[k], source as int, goal as int)
                    == best,
            i == 0 ==> best == 0,
        decreases waypoints@.len() - i,
    {
        let w = &waypoints[i];
        assert(0 <= source < w.distances_to@.len());
        let to_s = w.distances_to[source];
        let to_g = w.distances_to[goal];
        let from_s = w.distances_from[source];
        let from_g = w.distances_from[goal];
        let diff1: u32 = if to_s > to_g {
            0
        } else {
            to_g - to_s
        };
        let diff2: u32 = if from_g > from_s {
            0
        } else {
            from_s - from_g
        };
        let bound = if diff1 >= diff2 {
            diff1
        } else {
            diff2
        };
        assert(bound == landmark_bound(waypoints@[i as int], source as int, goal as int));
        if i == 0 || bound > best {
            best = bound;
        }
        i = i + 1;
    }
    best
}

/// The big-endian `u32` at position `p`.
pub open spec fn u32_at(b: Seq<u8>, p: int) -> u32 {
    be_value(b.subrange(p, p + 4)) as u32
}

/// `count` big-endian `u32` values from position `p` on.
pub open spec fn u32s_at(b: Seq<u8>, p: int, count: nat) -> Seq<u32> {
    Seq::new(count, |k: int| u32_at(b, p + 4 * k))
}

/// The records `(source, distances_to, distances_from)` from position `p`
/// on. A record is the source, the number of distances to it and those
/// distances, then the number of distances from it and those; all are
/// big-endian `u32`. `None` when a record is cut short.
pub open spec fn parse_waypoints(b: Seq<u8>, p: nat) -> Option<Seq<(u32, Seq<u32>, Seq<u32>)>>
    decreases b.len() - p,
{
    if p >= b.len() {
        Some(Seq::empty())
    } else if p + 8 > b.len() {
        None
    } else {
        let nt = u32_at(b, p + 4int) as nat;
        let q = p + 8 + 4 * nt;
        if q + 4 > b.len() {
            None
        } else {
            let nf = u32_at(b, q as int) as nat;
            let e = q + 4 + 4 * nf;
            if e > b.len() {
                None
            } else {
                match parse_waypoints(b, e) {
                    Some(rest) => Some(
                        seq![(u32_at(b, p as int), u32s_at(b, p + 8int, nt), u32s_at(b, q + 4int, nf))]
                            + rest,
                    ),
                    None => None,
                }
            }
        }
    }
}

/// A landmark as plain values.
pub open spec fn waypoint_view(w: Waypoint) -> (u32, Seq<u32>, Seq<u32>) {
    (w.source, w.distances_to@, w.distances_from@)
}

/// `out` followed by what `rest` holds, if anything.
pub open spec fn prepend_records(
    out: Seq<(u32, Seq<u32>, Seq<u32>)>,
    rest: Option<Seq<(u32, Seq<u32>, Seq<u32>)>>,
) -> Option<Seq<(u32, Seq<u32>, Seq<u32>)>> {
    match rest {
        Some(r) => Some(out + r),
        None => None,
    }
}

/// Reads the big-endian `u32` at `p`.
fn read_u32(bytes: &Vec<u8>, p: usize) -> (r: u32)
    requires
        p + 4 <= bytes@.len(),
    ensures
        r == u32_at(bytes@, p as int),
{
    let n = bytes.len();
    assert(p + 4 <= n);
    let quad = [bytes[p], bytes[p + 1], bytes[p + 2], bytes[p + 3]];
    assert(quad@ =~= bytes@.subrange(p as int, p + 4));
    get_u32_from_byte_array(&quad)
}

/// Reads `count` big-endian `u32` values from `p` on.
fn read_u32s(bytes: &Vec<u8>, p: usize, count: usize) -> (r: Vec<u32>)
    requires
        p + 4 * count <= bytes@.len(),
    ensures
        r@ == u32s_at(bytes@, p as int, count as nat),
{
    let n = bytes.len();
    let mut r: Vec<u32> = Vec::new();
    let mut k: usize = 0;
    while k < count
        invariant
            n == bytes@.len(),
            k <= count,
            p + 4 * count <= bytes@.len(),
            r@ == u32s_at(bytes@, p as int, k as nat),
        decreases count - k,
    {
        r.push(read_u32(bytes, p + 4 * k));
        k = k + 1;
        assert(r@ =~= u32s_at(bytes@, p as int, k as nat));
    }
    r
}

/// Reads the landmarks of a waypoint file; `None` when a record is cut
/// short.
pub fn get_waypoints_from_bytes(bytes: &Vec<u8>) -> (r: Option<Vec<Waypoint>>)
    ensures
        match parse_waypoints(bytes@, 0) {
            Some(ws) => r matches Some(v) && v@.map_values(|w: Waypoint| waypoint_view(w)) == ws,
            None => r is None,
        },
{
    let n = bytes.len();
    let mut pointer: usize = 0;
    let mut res: Vec<Waypoint> = Vec::new();
    assert(prepend_records(Seq::empty(), parse_waypoints(bytes@, 0)) == parse_waypoints(bytes@, 0)) by {
        if let Some(ws) = parse_waypoints(bytes@, 0) {
            assert(Seq::<(u32, Seq<u32>, Seq<u32>)>::empty() + ws =~= ws);
        }
    }
    while pointer < n
        invariant
            n == bytes@.len(),
            pointer <= n,
            parse_waypoints(bytes@, 0) == prepend_records(
                res@.map_values(|w: Waypoint| waypoint_view(w)),
                parse_waypoints(bytes@, pointer as nat),
            ),
        decreases n - pointer,
    {
        if n - pointer < 8 {
            return None;
        }
        let source = read_u32(bytes, pointer);
        let length_to = read_u32(bytes, pointer + 4) as usize;
        if length_to > (n - pointer - 8) / 4 || n - pointer - 8 - 4 * length_to < 4 {
            return None;
        }
        let distances_to = read_u32s(bytes, pointer + 8, length_to);
        let q = pointer + 8 + 4 * length_to;
        let length_from = read_u32(bytes, q) as usize;
        if length_from > (n - q - 4) / 4 {
            return None;
        }
        let distances_from = read_u32s(bytes, q + 4, length_from);
        let e = q + 4 + 4 * length_from;
        let ghost before = res@.map_values(|w: Waypoint| waypoint_view(w));
        let w = Waypoint::new(source, distances_to, distances_from);
        res.push(w);
        proof {
            let rec = (source, u32s_at(bytes@, pointer + 8, length_to as nat), u32s_at(bytes@, q + 4, length_from as nat));
            assert(res@.map_values(|w: Waypoint| waypoint_view(w)) =~= before.push(rec));
            match parse_waypoints(bytes@, e as nat) {
                Some(rest) => {
                    assert(before + (seq![rec] + rest) =~= before.push(rec) + rest);
                },
                None => {},
            }
        }
        pointer = e;
    }
    assert(res@.map_values(|w: Waypoint| waypoint_view(w)) + Seq::empty() =~= res@.map_values(|w: Waypoint| waypoint_view(w)));
    Some(res)
}

} // verus!
