//! Face clustering: from similarities of faces to people.
//!
//! How similar two faces are is found out elsewhere. Two faces are put together if
//! a chain of pairs that are similar enough leads from one to the other, even if
//! the ends of the chain are not similar: a cluster can drift, so clusters are
//! suggestions to be looked over.
//!
//! Every face ends up in some cluster. A person who appears in a single photo is
//! still a person worth naming.
use vstd::prelude::*;

use crate::clusters;
use crate::clusters::{classes, labels_of_sets};
use crate::order;
use crate::union_find;
use crate::union_find::UnionFind;

verus! {

/// Bounding box in pixels of the image that was analysed.
#[derive(Debug, Clone, Copy, PartialEq, Eq, Structural)]
pub struct BBox {
    pub x: u32,
    pub y: u32,
    pub w: u32,
    pub h: u32,
}

/// A face found in an image.
#[derive(Debug, Clone, PartialEq)]
pub struct DetectedFace {
    pub media_id: i64,
    /// Which of the faces in its image it is.
    pub face_index: usize,
    pub bbox: BBox,
    /// What the recognizer makes of the face: the bits of single-precision numbers.
    pub embedding: Vec<u32>,
}

/// How similar two faces are, as the bits of a single-precision number.
#[derive(Debug, Clone, Copy, PartialEq, Eq, Structural)]
pub struct Similarity {
    pub bits: u32,
}

/// The bits of infinity. Beyond them are those of values that are no numbers.
pub const INFINITE: u32 = 0x7F80_0000;

/// A whole number that orders as a similarity does, if that is a number. Both
/// zeros are equal.
pub open spec fn rank(s: Similarity) -> Option<int> {
    let magnitude = s.bits as int % 0x8000_0000;
    if magnitude > INFINITE {
        None
    } else if s.bits >= 0x8000_0000 {
        Some(-magnitude)
    } else {
        Some(magnitude)
    }
}

fn rank_of(s: Similarity) -> (r: Option<i64>)
    ensures
        r matches Some(x) ==> rank(s) == Some(x as int),
        r is None ==> rank(s) is None,
{
    let magnitude: u32 = s.bits % 0x8000_0000;
    if magnitude > INFINITE {
        None
    } else if s.bits >= 0x8000_0000 {
        Some(-(magnitude as i64))
    } else {
        Some(magnitude as i64)
    }
}

/// Whether a similarity is at least another. One that is no number is not.
pub open spec fn at_least(a: Similarity, b: Similarity) -> bool {
    match (rank(a), rank(b)) {
        (Some(x), Some(y)) => x >= y,
        _ => false,
    }
}

/// Whether a similarity is more than another.
pub open spec fn exceeds(a: Similarity, b: Similarity) -> bool {
    match (rank(a), rank(b)) {
        (Some(x), Some(y)) => x > y,
        _ => false,
    }
}

fn is_at_least(a: Similarity, b: Similarity) -> (r: bool)
    ensures
        r == at_least(a, b),
{
    match (rank_of(a), rank_of(b)) {
        (Some(x), Some(y)) => x >= y,
        _ => false,
    }
}

fn is_more(a: Similarity, b: Similarity) -> (r: bool)
    ensures
        r == exceeds(a, b),
{
    match (rank_of(a), rank_of(b)) {
        (Some(x), Some(y)) => x > y,
        _ => false,
    }
}

/// Tuning for a clustering pass.
#[derive(Debug, Clone, Copy, PartialEq, Eq, Structural)]
pub struct ClusterConfig {
    /// The least similarity at which two faces count as the same person. It leans
    /// to caution: a wrong merge can go unnoticed, a split is easily mended.
    pub similarity_threshold: Similarity,
}

/// The bits of one half.
pub const HALF: u32 = 0x3F00_0000;

impl Default for ClusterConfig {
    fn default() -> (r: Self)
        ensures
            r.similarity_threshold.bits == HALF,
    {
        ClusterConfig { similarity_threshold: Similarity { bits: HALF } }
    }
}

/// One cluster of faces believed to be the same person.
#[derive(Debug, Clone, PartialEq)]
pub struct PersonCluster {
    /// Positions in the caller's list of faces, ascending.
    pub members: Vec<usize>,
}

impl Default for PersonCluster {
    fn default() -> (r: Self)
        ensures
            r.members@.len() == 0,
    {
        PersonCluster { members: Vec::new() }
    }
}

/// A table of similarities as mathematical values.
pub open spec fn table(similarities: Seq<Vec<Similarity>>) -> Seq<Seq<Similarity>> {
    similarities.map_values(|row: Vec<Similarity>| row@)
}

/// Whether two faces are similar enough. The table is read above its diagonal.
pub open spec fn alike(t: Seq<Seq<Similarity>>, threshold: Similarity) -> spec_fn(
    int,
    int,
) -> bool {
    |x: int, y: int|
        {
            &&& 0 <= x < t.len()
            &&& 0 <= y < t.len()
            &&& x < y ==> at_least(t[x][y], threshold)
            &&& y < x ==> at_least(t[y][x], threshold)
            &&& x != y
        }
}

/// The label of each face: the first face that a chain leads to.
pub open spec fn face_labels(t: Seq<Seq<Similarity>>, threshold: Similarity) -> Seq<Option<int>> {
    clusters::link_labels(alike(t, threshold), t.len()).map_values(|l: int| Some(l))
}

/// The clusters of the labels below `n`.
pub open spec fn people_upto(labels: Seq<Option<int>>, n: int) -> Seq<Seq<int>>
    decreases n,
{
    if n <= 0 {
        Seq::empty()
    } else {
        let class = clusters::class_of(labels, n - 1);
        if class.len() > 0 {
            people_upto(labels, n - 1).push(class)
        } else {
            people_upto(labels, n - 1)
        }
    }
}

/// The faces of each person, by their first face.
pub open spec fn people(t: Seq<Seq<Similarity>>, threshold: Similarity) -> Seq<Seq<int>> {
    people_upto(face_labels(t, threshold), t.len() as int)
}

/// The members of clusters as mathematical values.
pub open spec fn members_of(all: Seq<PersonCluster>) -> Seq<Seq<int>> {
    all.map_values(|c: PersonCluster| order::positions(c.members@))
}

fn link_faces(similarities: &[Vec<Similarity>], threshold: Similarity) -> (sets: UnionFind)
    requires
        forall|i: int|
            0 <= i < similarities@.len() ==> (#[trigger] similarities@[i])@.len()
                == similarities@.len(),
    ensures
        sets.wf(),
        sets@.len() == similarities@.len(),
        clusters::only_linked(alike(table(similarities@), threshold), sets@),
        forall|x: int, y: int|
            #![trigger sets@[x], sets@[y]]
            alike(table(similarities@), threshold)(x, y) ==> sets@[x] == sets@[y],
{
    let n: usize = similarities.len();
    let ghost t = table(similarities@);
    let ghost edge = alike(t, threshold);
    let mut sets: UnionFind = UnionFind::new(n);
    proof {
        sets.lemma_wf();
        assert forall|x: int, y: int|
            0 <= x < sets@.len() && 0 <= y < sets@.len() && #[trigger] sets@[x]
                == #[trigger] sets@[y] implies clusters::linked(edge, x, y) by {
            clusters::lemma_linked_to_itself(edge, x);
        }
    }
    let mut i: usize = 0;
    while i < n
        invariant
            n == similarities@.len(),
            t == table(similarities@),
            edge == alike(t, threshold),
            forall|i: int|
                0 <= i < similarities@.len() ==> (#[trigger] similarities@[i])@.len() == n,
            i <= n,
            sets.wf(),
            sets@.len() == n,
            clusters::only_linked(edge, sets@),
            forall|x: int, y: int|
                0 <= x < i && x < y && #[trigger] edge(x, y) ==> sets@[x] == sets@[y],
        decreases n - i,
    {
        let mut j: usize = i + 1;
        while j < n
            invariant
                n == similarities@.len(),
                t == table(similarities@),
                edge == alike(t, threshold),
                forall|i: int|
                    0 <= i < similarities@.len() ==> (#[trigger] similarities@[i])@.len() == n,
                i < j <= n,
                sets.wf(),
                sets@.len() == n,
                clusters::only_linked(edge, sets@),
                forall|x: int, y: int|
                    0 <= x < i && x < y && #[trigger] edge(x, y) ==> sets@[x] == sets@[y],
                forall|y: int|
                    i < y < j && #[trigger] edge(i as int, y) ==> sets@[i as int] == sets@[y],
            decreases n - j,
        {
            assert(t[i as int] == similarities@[i as int]@);
            if is_at_least(similarities[i][j], threshold) {
                let ghost before = sets@;
                proof {
                    assert(edge(i as int, j as int));
                    sets.lemma_wf();
                    clusters::lemma_merge_keeps_linked(edge, before, i as int, j as int);
                }
                sets.union(i, j);
                proof {
                    assert forall|x: int, y: int|
                        0 <= x < i && x < y && #[trigger] edge(x, y) implies sets@[x] == sets@[y] by {
                        union_find::merging_joins_exactly_two_sets(
                            before,
                            i as int,
                            j as int,
                            x,
                            y,
                        );
                    }
                    assert forall|y: int| i < y < j + 1 && #[trigger] edge(i as int, y) implies sets@[i as int]
                        == sets@[y] by {
                        union_find::merging_joins_exactly_two_sets(
                            before,
                            i as int,
                            j as int,
                            i as int,
                            y,
                        );
                    }
                }
            }
            j += 1;
        }
        i += 1;
    }
    proof {
        assert forall|x: int, y: int|
            #![trigger sets@[x], sets@[y]]
            edge(x, y) implies sets@[x] == sets@[y] by {
            if x < y {
                assert(edge(x, y));
            } else {
                assert(edge(y, x));
            }
        }
    }
    sets
}

/// Sorts every face into people. `similarities` holds, for each face, how similar
/// it is to each of the faces.
///
/// Every face is in exactly one cluster. One with no close match becomes a cluster
/// of one. Clusters come in the order of their first faces.
pub fn cluster_faces(
    faces: &[DetectedFace],
    similarities: &[Vec<Similarity>],
    cfg: &ClusterConfig,
) -> (r: Vec<PersonCluster>)
    requires
        similarities@.len() == faces@.len(),
        forall|i: int|
            0 <= i < similarities@.len() ==> (#[trigger] similarities@[i])@.len() == faces@.len(),
    ensures
        members_of(r@) == people(table(similarities@), cfg.similarity_threshold),
{
    let n: usize = faces.len();
    let ghost t = table(similarities@);
    let threshold: Similarity = cfg.similarity_threshold;
    let ghost edge = alike(t, threshold);
    let mut sets: UnionFind = link_faces(similarities, threshold);
    proof {
        assert forall|x: int, y: int| #[trigger] edge(x, y) implies sets@[x] == sets@[y] by {}
    }
    let labels: Vec<usize> = labels_of_sets(&mut sets, Ghost(edge));
    assert(order::positions(labels@).len() == n);
    let ghost ls = face_labels(t, threshold);
    let mut marked: Vec<Option<usize>> = Vec::new();
    let mut i: usize = 0;
    while i < n
        invariant
            n == t.len(),
            n == labels@.len(),
            edge == alike(t, threshold),
            forall|x: int, y: int| #[trigger] edge(x, y) ==> edge(y, x),
            ls == face_labels(t, threshold),
            order::positions(labels@) == clusters::link_labels(edge, n as nat),
            i <= n,
            marked@.len() == i,
            forall|k: int| 0 <= k < i ==> clusters::marks(marked@)[k] == #[trigger] ls[k],
            forall|k: int| 0 <= k < i ==> (#[trigger] marked@[k]) is Some && marked@[k]->0 < n,
        decreases n - i,
    {
        let ghost before = marked@;
        marked.push(Some(labels[i]));
        proof {
            assert(order::positions(labels@)[i as int] == labels@[i as int]);
            clusters::lemma_labels_follow_links(edge, n as nat, i as int, i as int);
            assert forall|k: int| 0 <= k < i + 1 implies clusters::marks(marked@)[k]
                == #[trigger] ls[k] by {
                if k < i {
                    assert(clusters::marks(before)[k] == ls[k]);
                }
            }
        }
        i += 1;
    }
    assert(clusters::marks(marked@) =~= ls);
    let mut lists: Vec<Vec<usize>> = classes(marked.as_slice());
    let mut out: Vec<PersonCluster> = Vec::new();
    let mut l: usize = 0;
    assert(members_of(out@) =~= people_upto(ls, 0));
    while l < n
        invariant
            lists@.len() == n,
            forall|l: int|
                0 <= l < n ==> order::positions((#[trigger] lists@[l])@) == clusters::class_of(
                    ls,
                    l,
                ),
            l <= n,
            members_of(out@) == people_upto(ls, l as int),
        decreases n - l,
    {
        let ghost before = out@;
        assert(order::positions(lists@[l as int]@).len() == lists@[l as int]@.len());
        if lists[l].len() > 0 {
            let members: Vec<usize> = lists[l].clone();
            assert(members@ =~= lists@[l as int]@);
            out.push(PersonCluster { members });
            assert(members_of(out@) =~= members_of(before).push(clusters::class_of(ls, l as int)));
        }
        l += 1;
    }
    out
}

/// The place of the greatest of the first `n` similarities. Of places that cannot
/// be told apart the last counts.
pub open spec fn greatest_upto(s: Seq<Similarity>, n: int) -> int
    decreases n,
{
    if n <= 1 {
        0
    } else {
        let best = greatest_upto(s, n - 1);
        if exceeds(s[best], s[n - 1]) {
            best
        } else {
            n - 1
        }
    }
}

impl PersonCluster {
    /// The member most similar to the cluster's centre: the natural cover photo.
    /// `to_centre` holds how similar each member is to it.
    pub fn representative(&self, to_centre: &[Similarity]) -> (r: Option<usize>)
        requires
            to_centre@.len() == self.members@.len(),
        ensures
            self.members@.len() == 0 ==> r is None,
            self.members@.len() > 0 ==> r == Some(
                self.members@[greatest_upto(to_centre@, to_centre@.len() as int)],
            ),
    {
        let n: usize = self.members.len();
        if n == 0 {
            return None;
        }
        let mut best: usize = 0;
        let mut k: usize = 1;
        while k < n
            invariant
                n == to_centre@.len(),
                1 <= k <= n,
                best < k,
                best == greatest_upto(to_centre@, k as int),
            decreases n - k,
        {
            if !is_more(to_centre[best], to_centre[k]) {
                best = k;
            }
            k += 1;
        }
        Some(self.members[best])
    }
}

/// The first place of the greatest of the first `n` similarities that reach a
/// threshold.
pub open spec fn nearest_upto(s: Seq<Similarity>, threshold: Similarity, n: int) -> Option<int>
    decreases n,
{
    if n <= 0 {
        None
    } else {
        match nearest_upto(s, threshold, n - 1) {
            Some(best) => if at_least(s[n - 1], threshold) && exceeds(s[n - 1], s[best]) {
                Some(n - 1)
            } else {
                Some(best)
            },
            None => if at_least(s[n - 1], threshold) {
                Some(n - 1)
            } else {
                None
            },
        }
    }
}

/// Which cluster a new face belongs to, without sorting all faces again.
/// `to_centres` holds how similar the face is to each cluster's centre. If none is
/// similar enough, the face starts a cluster of its own. Ties go to the first.
pub fn assign_to_nearest(to_centres: &[Similarity], cfg: &ClusterConfig) -> (r: Option<usize>)
    ensures
        r matches Some(k) ==> nearest_upto(
            to_centres@,
            cfg.similarity_threshold,
            to_centres@.len() as int,
        ) == Some(k as int),
        r is None ==> nearest_upto(
            to_centres@,
            cfg.similarity_threshold,
            to_centres@.len() as int,
        ) is None,
{
    let threshold: Similarity = cfg.similarity_threshold;
    let mut found: Option<usize> = None;
    let mut k: usize = 0;
    while k < to_centres.len()
        invariant
            threshold == cfg.similarity_threshold,
            k <= to_centres@.len(),
            match found {
                Some(b) => b < k && nearest_upto(to_centres@, threshold, k as int) == Some(
                    b as int,
                ),
                None => nearest_upto(to_centres@, threshold, k as int) is None,
            },
        decreases to_centres@.len() - k,
    {
        if is_at_least(to_centres[k], threshold) {
            match found {
                Some(best) => {
                    if is_more(to_centres[k], to_centres[best]) {
                        found = Some(k);
                    }
                },
                None => {
                    found = Some(k);
                },
            }
        }
        k += 1;
    }
    found
}

/// What clusters are: each holds the faces of one label, in order, and they come by
/// label.
proof fn lemma_people(labels: Seq<Option<int>>, n: int)
    ensures
        forall|k: int, x: int|
            0 <= k < people_upto(labels, n).len() && #[trigger] people_upto(labels, n)[k].contains(
                x,
            ) ==> 0 <= x < labels.len() && labels[x] is Some && labels[x]->0 < n,
        forall|k: int, x: int, y: int|
            0 <= k < people_upto(labels, n).len() && #[trigger] people_upto(labels, n)[k].contains(
                x,
            ) && #[trigger] people_upto(labels, n)[k].contains(y) ==> labels[x] == labels[y],
        forall|a: int, b: int, x: int, y: int|
            0 <= a < b < people_upto(labels, n).len() && #[trigger] people_upto(
                labels,
                n,
            )[a].contains(x) && #[trigger] people_upto(labels, n)[b].contains(y) ==> labels[x]->0
                < labels[y]->0,
        forall|x: int|
            0 <= x < labels.len() && (#[trigger] labels[x]) is Some && 0 <= labels[x]->0 < n
                ==> exists|k: int|
                0 <= k < people_upto(labels, n).len() && #[trigger] people_upto(
                    labels,
                    n,
                )[k].contains(x),
        forall|k: int| 0 <= k < people_upto(labels, n).len() ==> (#[trigger] people_upto(labels, n)[k]).len() > 0,
    decreases n,
{
    if n > 0 {
        lemma_people(labels, n - 1);
        let prev = people_upto(labels, n - 1);
        let cur = people_upto(labels, n);
        let class = clusters::class_of(labels, n - 1);
        clusters::lemma_positions_with(labels, n - 1, labels.len() as int);
        assert forall|x: int| class.contains(x) implies 0 <= x < labels.len() && labels[x] == Some(
            n - 1,
        ) by {
            let m = choose|m: int| 0 <= m < class.len() && class[m] == x;
            assert(labels[class[m]] == Some(n - 1));
        }
        assert forall|k: int| 0 <= k < prev.len() implies cur[k] == prev[k] by {}
        assert forall|k: int, x: int| 0 <= k < cur.len() && #[trigger] cur[k].contains(x) implies 0
            <= x < labels.len() && labels[x] is Some && labels[x]->0 < n by {
            if k < prev.len() {
                assert(prev[k].contains(x));
            }
        }
        assert forall|k: int, x: int, y: int|
            0 <= k < cur.len() && #[trigger] cur[k].contains(x) && #[trigger] cur[k].contains(
                y,
            ) implies labels[x] == labels[y] by {
            if k < prev.len() {
                assert(prev[k].contains(x) && prev[k].contains(y));
            }
        }
        assert forall|a: int, b: int, x: int, y: int|
            0 <= a < b < cur.len() && #[trigger] cur[a].contains(x) && #[trigger] cur[b].contains(
                y,
            ) implies labels[x]->0 < labels[y]->0 by {
            assert(prev[a].contains(x));
            if b < prev.len() {
                assert(prev[b].contains(y));
            }
        }
        assert forall|x: int|
            0 <= x < labels.len() && (#[trigger] labels[x]) is Some && 0 <= labels[x]->0
                < n implies exists|k: int| 0 <= k < cur.len() && #[trigger] cur[k].contains(x) by {
            if labels[x]->0 < n - 1 {
                let k = choose|k: int| 0 <= k < prev.len() && #[trigger] prev[k].contains(x);
                assert(cur[k].contains(x));
            } else {
                assert(class.contains(x));
                assert(cur[cur.len() - 1].contains(x));
            }
        }
    }
}

proof fn lemma_alike_is_mutual(t: Seq<Seq<Similarity>>, threshold: Similarity)
    ensures
        forall|x: int, y: int| #[trigger] alike(t, threshold)(x, y) ==> alike(t, threshold)(y, x),
{
}

/// Every face is in exactly one cluster.
pub proof fn every_face_is_in_one_cluster(
    t: Seq<Seq<Similarity>>,
    threshold: Similarity,
    face: int,
)
    requires
        0 <= face < t.len(),
    ensures
        exists|k: int|
            0 <= k < people(t, threshold).len() && #[trigger] people(t, threshold)[k].contains(
                face,
            ),
        forall|a: int, b: int|
            0 <= a < people(t, threshold).len() && 0 <= b < people(t, threshold).len()
                && #[trigger] people(t, threshold)[a].contains(face) && #[trigger] people(
                t,
                threshold,
            )[b].contains(face) ==> a == b,
{
    let labels = face_labels(t, threshold);
    lemma_people(labels, t.len() as int);
    lemma_alike_is_mutual(t, threshold);
    clusters::lemma_labels_follow_links(alike(t, threshold), t.len(), face, face);
    assert(labels[face] is Some && 0 <= labels[face]->0 < t.len());
    assert forall|a: int, b: int|
        0 <= a < people(t, threshold).len() && 0 <= b < people(t, threshold).len()
            && #[trigger] people(t, threshold)[a].contains(face) && #[trigger] people(
            t,
            threshold,
        )[b].contains(face) implies a == b by {
        if a < b {
            assert(labels[face]->0 < labels[face]->0);
        } else if b < a {
            assert(labels[face]->0 < labels[face]->0);
        }
    }
}

/// Two faces are in one cluster exactly if a chain of similar faces leads from one to
/// the other, whichever photos they are in.
pub proof fn clusters_follow_chains(
    t: Seq<Seq<Similarity>>,
    threshold: Similarity,
    k: int,
    x: int,
    y: int,
)
    requires
        0 <= k < people(t, threshold).len(),
        people(t, threshold)[k].contains(x),
        0 <= y < t.len(),
    ensures
        people(t, threshold)[k].contains(y) <==> clusters::linked(alike(t, threshold), x, y),
{
    let labels = face_labels(t, threshold);
    let edge = alike(t, threshold);
    lemma_people(labels, t.len() as int);
    lemma_alike_is_mutual(t, threshold);
    assert(0 <= x < t.len());
    clusters::lemma_labels_follow_links(edge, t.len(), x, y);
    clusters::lemma_labels_follow_links(edge, t.len(), y, x);
    if labels[x] == labels[y] {
        let m = choose|m: int|
            0 <= m < people(t, threshold).len() && #[trigger] people(t, threshold)[m].contains(y);
        if m < k {
            assert(labels[y]->0 < labels[x]->0);
        } else if k < m {
            assert(labels[x]->0 < labels[y]->0);
        }
    }
}

/// Clusters come in the order of their first faces.
pub proof fn clusters_come_by_first_face(
    t: Seq<Seq<Similarity>>,
    threshold: Similarity,
    a: int,
    b: int,
)
    requires
        0 <= a < b < people(t, threshold).len(),
    ensures
        people(t, threshold)[a].len() > 0,
        people(t, threshold)[b].len() > 0,
        people(t, threshold)[a][0] < people(t, threshold)[b][0],
{
    let labels = face_labels(t, threshold);
    let edge = alike(t, threshold);
    let all = people(t, threshold);
    lemma_people(labels, t.len() as int);
    lemma_alike_is_mutual(t, threshold);
    lemma_first_face_is_label(t, threshold, a);
    lemma_first_face_is_label(t, threshold, b);
    assert(all[a].contains(all[a][0]));
    assert(all[b].contains(all[b][0]));
}

proof fn lemma_first_face_is_label(t: Seq<Seq<Similarity>>, threshold: Similarity, k: int)
    requires
        0 <= k < people(t, threshold).len(),
    ensures
        people(t, threshold)[k].len() > 0,
        face_labels(t, threshold)[people(t, threshold)[k][0]] == Some(people(t, threshold)[k][0]),
{
    let labels = face_labels(t, threshold);
    let edge = alike(t, threshold);
    let all = people(t, threshold);
    let n = t.len() as int;
    lemma_people(labels, n);
    lemma_alike_is_mutual(t, threshold);
    let x = all[k][0];
    assert(all[k].contains(x));
    clusters::lemma_labels_follow_links(edge, t.len(), x, x);
    let l = labels[x]->0;
    let p = |j: int| clusters::linked(edge, j, x);
    clusters::lemma_linked_to_itself(edge, x);
    clusters::lemma_first_is(p, 0, n, x);
    assert(p(l));
    clusters_follow_chains(t, threshold, k, x, l);
    clusters::lemma_linked_sym(edge, l, x);
    assert(all[k].contains(l));
    lemma_ascending(labels, n, k);
    let m = choose|m: int| 0 <= m < all[k].len() && all[k][m] == l;
    if m > 0 {
        assert(all[k][0] < all[k][m]);
    }
}

proof fn lemma_ascending(labels: Seq<Option<int>>, n: int, k: int)
    requires
        0 <= k < people_upto(labels, n).len(),
    ensures
        forall|i: int, j: int|
            0 <= i < j < people_upto(labels, n)[k].len() ==> #[trigger] people_upto(labels, n)[k][i]
                < #[trigger] people_upto(labels, n)[k][j],
    decreases n,
{
    if n > 0 {
        clusters::lemma_positions_with(labels, n - 1, labels.len() as int);
        if k < people_upto(labels, n - 1).len() {
            lemma_ascending(labels, n - 1, k);
        }
    }
}

/// Finding the faces in another order does not change who is grouped with whom. `p`
/// says which face of the first list each face of the second is, and `q` the other
/// way round.
pub proof fn scan_order_does_not_matter(
    first: spec_fn(int, int) -> bool,
    second: spec_fn(int, int) -> bool,
    p: spec_fn(int) -> int,
    q: spec_fn(int) -> int,
    i: int,
    j: int,
)
    requires
        forall|x: int| #[trigger] q(p(x)) == x,
        forall|x: int| #[trigger] p(q(x)) == x,
        forall|x: int, y: int| #[trigger] second(x, y) == first(p(x), p(y)),
    ensures
        clusters::linked(second, i, j) <==> clusters::linked(first, p(i), p(j)),
{
    if clusters::linked(second, i, j) {
        lemma_chain_carries_over(second, first, p, i, j);
    }
    if clusters::linked(first, p(i), p(j)) {
        assert forall|x: int, y: int| #[trigger] first(x, y) implies second(q(x), q(y)) by {
            assert(second(q(x), q(y)) == first(p(q(x)), p(q(y))));
            assert(p(q(x)) == x && p(q(y)) == y);
        }
        lemma_chain_carries_over(first, second, q, p(i), p(j));
        assert(q(p(i)) == i && q(p(j)) == j);
    }
}

proof fn lemma_chain_carries_over(
    from: spec_fn(int, int) -> bool,
    to: spec_fn(int, int) -> bool,
    p: spec_fn(int) -> int,
    i: int,
    j: int,
)
    requires
        forall|x: int, y: int| #[trigger] from(x, y) ==> to(p(x), p(y)),
        clusters::linked(from, i, j),
    ensures
        clusters::linked(to, p(i), p(j)),
{
    let w = choose|walk: Seq<int>| #[trigger]
        clusters::is_walk(from, walk) && walk[0] == i && walk.last() == j;
    let v = w.map_values(|x: int| p(x));
    assert forall|k: int| 0 <= k < v.len() - 1 implies to(#[trigger] v[k], v[k + 1]) by {
        assert(from(w[k], w[k + 1]));
    }
    assert(clusters::is_walk(to, v));
    assert(v[0] == p(i) && v.last() == p(j));
}

/// A new face goes to a cluster that is similar enough, if there is one, and no other
/// is more similar, nor an earlier one as similar.
pub proof fn the_nearest_cluster_is_never_beaten(
    s: Seq<Similarity>,
    threshold: Similarity,
    n: int,
    i: int,
)
    requires
        0 <= i < n <= s.len(),
    ensures
        at_least(s[i], threshold) ==> nearest_upto(s, threshold, n) is Some,
        nearest_upto(s, threshold, n) matches Some(k) ==> {
            &&& 0 <= k < n
            &&& at_least(s[k], threshold)
            &&& at_least(s[i], threshold) ==> at_least(s[k], s[i])
            &&& at_least(s[i], threshold) && i < k ==> exceeds(s[k], s[i])
        },
    decreases n,
{
    if i < n - 1 {
        the_nearest_cluster_is_never_beaten(s, threshold, n - 1, i);
    } else if n > 1 {
        match nearest_upto(s, threshold, n - 1) {
            Some(k) => {
                the_nearest_cluster_is_never_beaten(s, threshold, n - 1, 0);
            },
            None => {},
        }
    }
}

/// Where every similarity is a number, no member of a cluster is more similar to its
/// centre than the one that stands for it.
pub proof fn the_cover_is_never_beaten(s: Seq<Similarity>, n: int, i: int)
    requires
        0 <= i < n <= s.len(),
        forall|k: int| 0 <= k < n ==> rank(#[trigger] s[k]) is Some,
    ensures
        0 <= greatest_upto(s, n) < n,
        at_least(s[greatest_upto(s, n)], s[i]),
    decreases n,
{
    if n > 1 {
        if i < n - 1 {
            the_cover_is_never_beaten(s, n - 1, i);
        } else {
            the_cover_is_never_beaten(s, n - 1, 0);
        }
        assert(rank(s[n - 1]) is Some);
        assert(rank(s[greatest_upto(s, n - 1)]) is Some);
    }
    assert(rank(s[i]) is Some);
}

/// Similarities compare as numbers: those that are not negative by their bits, those that
/// are the other way round, the negative ones below the others, and the two zeros alike;
/// what is no number compares with nothing.
pub proof fn similarities_compare_as_numbers(a: Similarity, b: Similarity)
    ensures
        a.bits <= 0x7F80_0000 && b.bits <= 0x7F80_0000 ==> (at_least(a, b) <==> a.bits >= b.bits) && (
        exceeds(a, b) <==> a.bits > b.bits),
        0x8000_0000 <= a.bits <= 0xFF80_0000 && 0x8000_0000 <= b.bits <= 0xFF80_0000 ==> (at_least(
            a,
            b,
        ) <==> a.bits <= b.bits) && (exceeds(a, b) <==> a.bits < b.bits),
        a.bits <= 0x7F80_0000 && 0x8000_0000 <= b.bits <= 0xFF80_0000 ==> at_least(a, b) && (exceeds(
            a,
            b,
        ) <==> a.bits != 0 || b.bits != 0x8000_0000) && !exceeds(b, a) && (at_least(b, a)
            <==> a.bits == 0 && b.bits == 0x8000_0000),
        0x7F80_0000 < a.bits < 0x8000_0000 || a.bits > 0xFF80_0000 ==> !at_least(a, b) && !at_least(
            b,
            a,
        ) && !exceeds(a, b) && !exceeds(b, a),
{
}

/// Two faces that are similar enough are of one person: no cluster holds one of them
/// without the other.
pub proof fn similar_faces_are_put_together(
    t: Seq<Seq<Similarity>>,
    threshold: Similarity,
    k: int,
    x: int,
    y: int,
)
    requires
        0 <= k < people(t, threshold).len(),
        0 <= x < y < t.len(),
        at_least(t[x][y], threshold),
    ensures
        people(t, threshold)[k].contains(x) <==> people(t, threshold)[k].contains(y),
{
    let edge = alike(t, threshold);
    assert(edge(x, y) && edge(y, x));
    clusters::lemma_close_is_linked(edge, x, y);
    clusters::lemma_close_is_linked(edge, y, x);
    if people(t, threshold)[k].contains(x) {
        clusters_follow_chains(t, threshold, k, x, y);
    }
    if people(t, threshold)[k].contains(y) {
        clusters_follow_chains(t, threshold, k, y, x);
    }
}

/// Two faces of one person are joined by a chain of faces, each similar enough to the next.
pub proof fn people_are_chains_of_similar_faces(
    t: Seq<Seq<Similarity>>,
    threshold: Similarity,
    k: int,
    x: int,
    y: int,
) -> (chain: Seq<int>)
    requires
        0 <= k < people(t, threshold).len(),
        people(t, threshold)[k].contains(x),
        people(t, threshold)[k].contains(y),
        0 <= y < t.len(),
    ensures
        chain.len() > 0 && chain[0] == x && chain.last() == y,
        forall|i: int|
            0 <= i < chain.len() - 1 ==> {
                let a = #[trigger] chain[i];
                let b = chain[i + 1];
                &&& 0 <= a < t.len() && 0 <= b < t.len() && a != b
                &&& a < b ==> at_least(t[a][b], threshold)
                &&& b < a ==> at_least(t[b][a], threshold)
            },
{
    clusters_follow_chains(t, threshold, k, x, y);
    let edge = alike(t, threshold);
    let walk = choose|walk: Seq<int>| #[trigger]
        clusters::is_walk(edge, walk) && walk[0] == x && walk.last() == y;
    assert forall|i: int| 0 <= i < walk.len() - 1 implies {
        let a = #[trigger] walk[i];
        let b = walk[i + 1];
        &&& 0 <= a < t.len() && 0 <= b < t.len() && a != b
        &&& a < b ==> at_least(t[a][b], threshold)
        &&& b < a ==> at_least(t[b][a], threshold)
    } by {
        assert(edge(walk[i], walk[i + 1]));
    }
    walk
}

/// Of members equally similar to the centre the last one stands for the cluster.
pub proof fn the_cover_is_the_last_of_equals(s: Seq<Similarity>, n: int, i: int)
    requires
        0 <= i < n <= s.len(),
        forall|k: int| 0 <= k < n ==> rank(#[trigger] s[k]) is Some,
    ensures
        i > greatest_upto(s, n) ==> exceeds(s[greatest_upto(s, n)], s[i]),
    decreases n,
{
    if n > 1 {
        the_cover_is_never_beaten(s, n - 1, 0);
        if i < n - 1 {
            the_cover_is_the_last_of_equals(s, n - 1, i);
        }
        assert(rank(s[n - 1]) is Some);
        assert(rank(s[greatest_upto(s, n - 1)]) is Some);
    }
}

} // verus!
