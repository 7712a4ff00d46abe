use proximity::comp::ApproxComparable;
use proximity::fifo_cache::FifoCache;
use proximity::float_bits::lt_bits;
use proximity::lru_cache::LRUCache;
use proximity::lsh_cache::LshCache;
use rand::SeedableRng;
use rand_distr::Distribution;

// The floating-point side of the system — the numeric kernel and the random
// hyperplane projector — lives outside the verified core; these tests pair the
// verified dispatcher and buckets with that outside arithmetic, as an
// embedder does.

fn dot(a: &[f32], b: &[f32]) -> f32 {
    a.iter().zip(b.iter()).map(|(x, y)| x * y).sum()
}

fn dist2(a: &[f32], b: &[f32]) -> f32 {
    a.iter().zip(b.iter()).map(|(x, y)| (x - y) * (x - y)).sum()
}

fn normalized(a: &[f32]) -> Vec<f32> {
    let norm = dot(a, a).sqrt();
    if norm == 0.0 {
        return vec![0.0; a.len()];
    }
    let inv = 1.0 / norm;
    a.iter().map(|x| x * inv).collect()
}

fn seeded_planes(num_hash: usize, dim: usize, seed: u64) -> Vec<Vec<f32>> {
    let mut rng = rand::rngs::StdRng::seed_from_u64(seed);
    (0..num_hash)
        .map(|_| (0..dim).map(|_| rand_distr::StandardNormal.sample(&mut rng)).collect())
        .collect()
}

fn sign(planes: &[Vec<f32>], v: &[f32]) -> Vec<bool> {
    let nv = normalized(v);
    planes.iter().map(|p| dot(&nv, p) >= 0.0).collect()
}

struct VecKey(Vec<f32>);

impl ApproxComparable for VecKey {
    // the specification half of the trait erases to an ordinary function that
    // an implementation outside the verified build must still name; it is
    // never called
    fn spec_fuzziness(self, _instore: VecKey) -> u32 {
        0
    }

    fn fuzziness(&self, instore: &VecKey) -> u32 {
        dist2(&self.0, &instore.0).sqrt().to_bits()
    }
}

#[test]
fn self_similarity_of_vector_keys() {
    let v = VecKey(vec![0.25, -1.5, 3.75, 0.0, 2.0, -0.125, 9.5, -4.25]);
    let w = VecKey(vec![0.25, -1.5, 3.75, 0.0, 2.0, -0.125, 9.5, -4.25]);
    assert_eq!(v.fuzziness(&w), 0.0f32.to_bits());
}

#[test]
fn squared_comparison_orders_like_the_root() {
    let u = [1.0f32, 2.0, 3.0, 4.0];
    let v = [1.5f32, 2.5, 3.5, 4.5];
    let w = [0.0f32, 0.0, 0.0, 0.0];
    let x = [10.0f32, 10.0, 10.0, 10.0];
    let pairs = [(&u[..], &v[..]), (&u[..], &w[..]), (&w[..], &x[..]), (&v[..], &v[..])];
    for &(a, b) in pairs.iter() {
        for &(c, d) in pairs.iter() {
            let squared = lt_bits(dist2(a, b).to_bits(), dist2(c, d).to_bits());
            let rooted = lt_bits(dist2(a, b).sqrt().to_bits(), dist2(c, d).sqrt().to_bits());
            assert_eq!(squared, rooted);
        }
    }
}

#[test]
fn seeded_projectors_are_deterministic() {
    let p1 = seeded_planes(16, 16, 12345);
    let p2 = seeded_planes(16, 16, 12345);
    assert_eq!(p1, p2);
    let v: Vec<f32> = (0..16).map(|i| (i as f32) - 7.5).collect();
    assert_eq!(sign(&p1, &v), sign(&p2, &v));
}

#[test]
fn different_seeds_give_different_planes() {
    let p1 = seeded_planes(16, 16, 1);
    let p2 = seeded_planes(16, 16, 2);
    assert_ne!(p1, p2);
}

#[test]
fn signatures_are_scale_invariant() {
    let planes = seeded_planes(8, 8, 99);
    let v = [0.1f32, -0.7, 0.3, 0.9, -0.2, 0.4, -0.8, 0.6];
    for alpha in [2.0f32, 0.25, 10.0] {
        let scaled: Vec<f32> = v.iter().map(|x| x * alpha).collect();
        assert_eq!(sign(&planes, &v), sign(&planes, &scaled));
    }
}

#[test]
fn lsh_fifo_scaled_hit() {
    // per-bucket FIFO, eight planes over eight dimensions, seed 42
    let planes = seeded_planes(8, 8, 42);
    let mut cache: LshCache<VecKey, i32, FifoCache<VecKey, i32>> = LshCache::new(8, 2);
    let v = vec![0.1f32; 8];
    let scaled: Vec<f32> = v.iter().map(|x| x * 2.0).collect();
    assert_eq!(sign(&planes, &v), sign(&planes, &scaled));
    // the match is checked on the raw keys, whose distance is the norm of v
    // (about 0.283), so the stored tolerance must admit that distance
    let tolerance = 0.5f32.to_bits();
    cache.insert(&sign(&planes, &v), VecKey(v), 1, tolerance);
    let hit = cache.find(&sign(&planes, &scaled), &VecKey(scaled));
    assert_eq!(hit, Some(1));
}

#[test]
fn lsh_lru_eviction_within_a_bucket() {
    // per-bucket LRU, eight planes over eight dimensions, seed 202
    let planes = seeded_planes(8, 8, 202);
    let mut cache: LshCache<VecKey, i32, LRUCache<VecKey, i32>> = LshCache::new(8, 2);
    let v = vec![0.1f32; 8];
    let k1: Vec<f32> = v.clone();
    let k2: Vec<f32> = v.iter().map(|x| x * 2.0).collect();
    let k3: Vec<f32> = v.iter().map(|x| x * 3.0).collect();
    let s = sign(&planes, &k1);
    assert_eq!(s, sign(&planes, &k2));
    assert_eq!(s, sign(&planes, &k3));
    // neighbouring keys stand about 0.283 apart; 0.2 separates them
    let tolerance = 0.2f32.to_bits();
    cache.insert(&s, VecKey(k1.clone()), 1, tolerance);
    cache.insert(&s, VecKey(k2.clone()), 2, tolerance);
    assert_eq!(cache.find(&s, &VecKey(k1.clone())), Some(1)); // promote the first
    cache.insert(&s, VecKey(k3.clone()), 3, tolerance); // evicts the second
    assert_eq!(cache.find(&s, &VecKey(k2)), None);
    assert_eq!(cache.find(&s, &VecKey(k1)), Some(1));
    assert_eq!(cache.find(&s, &VecKey(k3)), Some(3));
}

#[test]
fn lsh_find_is_idempotent() {
    let planes = seeded_planes(8, 8, 99);
    let mut cache: LshCache<VecKey, i32, FifoCache<VecKey, i32>> = LshCache::new(8, 2);
    let v = vec![1.0f32, 2.0, 3.0, 4.0, 5.0, 6.0, 7.0, 8.0];
    let s = sign(&planes, &v);
    cache.insert(&s, VecKey(v.clone()), 5, 1e-6f32.to_bits());
    let first = cache.find(&s, &VecKey(v.clone()));
    let second = cache.find(&s, &VecKey(v));
    assert_eq!(first, second);
    assert_eq!(first, Some(5));
}
