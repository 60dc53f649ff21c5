//! Face clustering.

use renamer::faces::{
    assign_to_nearest, cluster_faces, BBox, ClusterConfig, DetectedFace, PersonCluster, Similarity,
};

fn face(media_id: i64, embedding: Vec<f32>) -> DetectedFace {
    DetectedFace {
        media_id,
        face_index: 0,
        bbox: BBox { x: 0, y: 0, w: 10, h: 10 },
        embedding: embedding.iter().map(|v| v.to_bits()).collect(),
    }
}

fn vector(face: &DetectedFace) -> Vec<f32> {
    face.embedding.iter().map(|b| f32::from_bits(*b)).collect()
}

/// A 4-D toy embedding space is enough to test clustering behaviour
/// without needing real 512-D model output.
fn near(base: [f32; 4], jitter: f32) -> Vec<f32> {
    base.iter().map(|v| v + jitter).collect()
}

fn cosine(a: &[f32], b: &[f32]) -> f32 {
    if a.is_empty() || a.len() != b.len() {
        return 0.0;
    }
    let dot: f32 = a.iter().zip(b).map(|(x, y)| x * y).sum();
    let norm_a = a.iter().map(|x| x * x).sum::<f32>().sqrt();
    let norm_b = b.iter().map(|x| x * x).sum::<f32>().sqrt();
    if norm_a == 0.0 || norm_b == 0.0 {
        return 0.0;
    }
    (dot / (norm_a * norm_b)).clamp(-1.0, 1.0)
}

fn similarity(value: f32) -> Similarity {
    Similarity { bits: value.to_bits() }
}

fn table(faces: &[DetectedFace]) -> Vec<Vec<Similarity>> {
    let vectors: Vec<Vec<f32>> = faces.iter().map(vector).collect();
    vectors
        .iter()
        .map(|a| vectors.iter().map(|b| similarity(cosine(a, b))).collect())
        .collect()
}

fn cluster(faces: &[DetectedFace]) -> Vec<PersonCluster> {
    cluster_faces(faces, &table(faces), &ClusterConfig::default())
}

fn centroid(faces: &[DetectedFace], members: &[usize]) -> Vec<f32> {
    let mut sum = vec![0f32; faces[members[0]].embedding.len()];
    for &i in members {
        let v = vector(&faces[i]);
        let norm = v.iter().map(|x| x * x).sum::<f32>().sqrt();
        for (s, x) in sum.iter_mut().zip(v) {
            *s += x / norm;
        }
    }
    let n = members.len() as f32;
    let mean: Vec<f32> = sum.iter().map(|s| s / n).collect();
    let norm = mean.iter().map(|x| x * x).sum::<f32>().sqrt();
    mean.iter().map(|x| x / norm).collect()
}

fn to_centre(faces: &[DetectedFace], cluster: &PersonCluster) -> Vec<Similarity> {
    let c = centroid(faces, &cluster.members);
    cluster.members.iter().map(|&i| similarity(cosine(&vector(&faces[i]), &c))).collect()
}

fn assign(embedding: &[f32], faces: &[DetectedFace], clusters: &[PersonCluster]) -> Option<usize> {
    let sims: Vec<Similarity> = clusters
        .iter()
        .map(|c| similarity(cosine(embedding, &centroid(faces, &c.members))))
        .collect();
    assign_to_nearest(&sims, &ClusterConfig::default())
}

#[test]
fn similar_embeddings_cluster_together() {
    let base = [1.0, 0.2, -0.3, 0.5];
    let faces =
        vec![face(1, near(base, 0.0)), face(2, near(base, 0.01)), face(3, near(base, -0.01))];
    let clusters = cluster(&faces);
    assert_eq!(clusters.len(), 1);
    assert_eq!(clusters[0].members, vec![0, 1, 2]);
}

#[test]
fn dissimilar_embeddings_stay_apart() {
    let faces = vec![face(1, vec![1.0, 0.0, 0.0, 0.0]), face(2, vec![0.0, 1.0, 0.0, 0.0])];
    let clusters = cluster(&faces);
    assert_eq!(clusters.len(), 2);
    assert_eq!(clusters[0].members, vec![0]);
    assert_eq!(clusters[1].members, vec![1]);
}

#[test]
fn every_face_lands_somewhere_even_alone() {
    // Unlike duplicate groups, singletons are not dropped: a person seen
    // once is still a person.
    let faces = vec![face(1, vec![1.0, 0.0]), face(2, vec![0.0, 1.0])];
    let clusters = cluster(&faces);
    let total: usize = clusters.iter().map(|c| c.members.len()).sum();
    assert_eq!(total, faces.len());
}

#[test]
fn threshold_boundary_is_inclusive() {
    // Two orthogonal unit-ish vectors nudged to a known similarity.
    let a = vec![1.0, 0.0];
    let b = vec![0.5f32.sqrt(), 0.5f32.sqrt()]; // cos(45 deg) ~= 0.7071
    let sim = cosine(&a, &b);

    let cfg_at = ClusterConfig { similarity_threshold: similarity(sim) };
    let faces = vec![face(1, a.clone()), face(2, b.clone())];
    assert_eq!(cluster_faces(&faces, &table(&faces), &cfg_at).len(), 1, "== threshold joins");

    let cfg_above = ClusterConfig { similarity_threshold: similarity(sim + 0.001) };
    assert_eq!(
        cluster_faces(&faces, &table(&faces), &cfg_above).len(),
        2,
        "just above threshold must not join"
    );
}

#[test]
fn clustering_is_transitive_across_a_chain() {
    // A~B and B~C within threshold, A~C is not, directly. All three still
    // group, the same trade-off near-duplicate grouping makes.
    let a = vec![1.0, 0.0, 0.0];
    let b = vec![0.7, 0.7, 0.0];
    let c = vec![0.0, 1.0, 0.0];
    assert!(cosine(&a, &b) >= 0.5);
    assert!(cosine(&b, &c) >= 0.5);
    assert!(cosine(&a, &c) < 0.5, "endpoints must not be directly close");

    let faces = vec![face(1, a), face(2, b), face(3, c)];
    let clusters = cluster(&faces);
    assert_eq!(clusters.len(), 1);
    assert_eq!(clusters[0].members.len(), 3);
}

#[test]
fn multiple_faces_in_one_photo_are_not_forced_together() {
    // Two different people photographed side by side must not merge just
    // because they share a media_id.
    let faces = vec![face(42, vec![1.0, 0.0, 0.0]), face(42, vec![0.0, 1.0, 0.0])];
    let clusters = cluster(&faces);
    assert_eq!(clusters.len(), 2);
}

#[test]
fn representative_is_the_member_closest_to_the_centroid() {
    let faces = vec![
        face(1, vec![1.0, 0.0]),
        face(2, vec![0.9, 0.1]), // slightly off-centroid
        face(3, vec![1.0, 0.01]), // closest to the average direction
    ];
    let clusters = cluster(&faces);
    assert_eq!(clusters.len(), 1);
    let rep = clusters[0].representative(&to_centre(&faces, &clusters[0])).unwrap();
    assert_eq!(rep, 2, "index 2 (face 3) sits closest to the cluster centroid");
}

#[test]
fn representative_of_empty_cluster_is_none() {
    let empty = PersonCluster::default();
    assert_eq!(empty.representative(&[]), None);
}

#[test]
fn clustering_empty_input_yields_no_clusters() {
    assert!(cluster(&[]).is_empty());
}

#[test]
fn single_face_forms_its_own_cluster() {
    let faces = vec![face(1, vec![1.0, 0.0, 0.0])];
    let clusters = cluster(&faces);
    assert_eq!(clusters.len(), 1);
    assert_eq!(clusters[0].members, vec![0]);
}

#[test]
fn cluster_output_is_ordered_by_first_member_index() {
    let faces = vec![
        face(1, vec![1.0, 0.0, 0.0]),
        face(2, vec![0.0, 1.0, 0.0]),
        face(3, vec![0.0, 0.0, 1.0]),
    ];
    let clusters = cluster(&faces);
    let starts: Vec<usize> = clusters.iter().map(|c| c.members[0]).collect();
    let mut sorted = starts.clone();
    sorted.sort_unstable();
    assert_eq!(starts, sorted, "clusters are ordered by ascending first member");
}

#[test]
fn grouping_is_independent_of_scan_order() {
    // The same three faces, discovered in a different order (as would
    // happen if the filesystem walk visited files in another sequence).
    // Regardless of index shuffling, each face must end up grouped with the
    // same real-world identities as before.
    let a = face(1, vec![1.0, 0.0, 0.0]);
    let b = face(2, vec![0.9, 0.1, 0.0]); // close to `a`
    let c = face(3, vec![0.0, 0.0, 1.0]); // far from both

    let group_of = |clusters: &[PersonCluster], faces: &[DetectedFace], media_id: i64| {
        clusters
            .iter()
            .position(|cl| cl.members.iter().any(|&i| faces[i].media_id == media_id))
            .unwrap()
    };

    let forward = vec![a.clone(), b.clone(), c.clone()];
    let reversed = vec![c.clone(), b.clone(), a.clone()];

    let cf = cluster(&forward);
    let cr = cluster(&reversed);

    // `a` and `b` share a cluster in both orderings...
    assert_eq!(group_of(&cf, &forward, 1), group_of(&cf, &forward, 2));
    assert_eq!(group_of(&cr, &reversed, 1), group_of(&cr, &reversed, 2));
    // ...and `c` is never pulled in with them, in either ordering.
    assert_ne!(group_of(&cf, &forward, 1), group_of(&cf, &forward, 3));
    assert_ne!(group_of(&cr, &reversed, 1), group_of(&cr, &reversed, 3));
}

#[test]
fn assign_to_nearest_finds_the_closest_cluster_above_threshold() {
    let faces = vec![face(1, vec![1.0, 0.0, 0.0]), face(2, vec![0.0, 1.0, 0.0])];
    let clusters = cluster(&faces);
    assert_eq!(clusters.len(), 2);

    // A new face close to the first cluster's direction.
    let got = assign(&[0.99, 0.01, 0.0], &faces, &clusters);
    assert_eq!(got, Some(0));
}

#[test]
fn assign_to_nearest_returns_none_when_nothing_is_close_enough() {
    let faces = vec![face(1, vec![1.0, 0.0, 0.0])];
    let clusters = cluster(&faces);

    let got = assign(&[0.0, 1.0, 0.0], &faces, &clusters);
    assert_eq!(got, None, "orthogonal to the only cluster: needs a new one");
}

#[test]
fn assign_to_nearest_on_no_clusters_is_none() {
    assert_eq!(assign(&[1.0, 0.0], &[], &[]), None);
}

#[test]
fn moderate_scale_clustering_completes_and_is_correct() {
    // 300 faces across 6 well-separated identities in 16-D space: enough
    // to exercise the O(n^2) path for real without making the test suite
    // slow (300^2 = 90,000 sixteen-float comparisons is microseconds).
    let dim: usize = 16;
    let people: usize = 6;
    let per_person: usize = 50;

    let mut identities = Vec::new();
    for p in 0..people {
        let mut v = vec![0.0f32; dim];
        v[p * (dim / people)] = 10.0; // near-orthogonal basis vectors
        identities.push(v);
    }

    let mut faces = Vec::new();
    let mut expected_person_of = Vec::new();
    // Deterministic pseudo-jitter so the test has no external RNG dependency.
    let mut state: u64 = 0xC0FF_EE00_D15E_A5E5;
    for p in 0..people {
        for _ in 0..per_person {
            state ^= state << 13;
            state ^= state >> 7;
            state ^= state << 17;
            let jitter = ((state % 1000) as f32 / 1000.0 - 0.5) * 0.05;
            let emb: Vec<f32> = identities[p].iter().map(|v| v + jitter).collect();
            faces.push(face(p as i64, emb));
            expected_person_of.push(p);
        }
    }

    let clusters = cluster(&faces);
    assert_eq!(clusters.len(), people, "each identity forms its own cluster");

    // Every member of a cluster must trace back to the same synthetic
    // identity; no cluster may mix two people.
    for cluster in &clusters {
        let first = expected_person_of[cluster.members[0]];
        assert!(
            cluster.members.iter().all(|&i| expected_person_of[i] == first),
            "cluster must not mix identities"
        );
    }
    let total: usize = clusters.iter().map(|c| c.members.len()).sum();
    assert_eq!(total, faces.len());
}

#[test]
fn what_is_no_number_is_never_similar() {
    let nan = similarity(f32::NAN);
    let high = similarity(0.9);
    let cfg = ClusterConfig::default();
    assert_eq!(assign_to_nearest(&[nan, high, nan], &cfg), Some(1));
    assert_eq!(assign_to_nearest(&[nan], &cfg), None);
    // Ties go to the first, negative zero equals zero, and order is by value.
    assert_eq!(assign_to_nearest(&[high, high], &cfg), Some(0));
    let zero = ClusterConfig { similarity_threshold: similarity(0.0) };
    assert_eq!(assign_to_nearest(&[similarity(-0.0)], &zero), Some(0));
    assert_eq!(assign_to_nearest(&[similarity(-0.5)], &zero), None);
    let low = ClusterConfig { similarity_threshold: similarity(-0.75) };
    assert_eq!(assign_to_nearest(&[similarity(-0.5), similarity(-0.25)], &low), Some(1));
}
