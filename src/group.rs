use vstd::prelude::*;

verus! {

/// The paths of a sequence of strings, as character sequences.
pub open spec fn path_seq(paths: Seq<String>) -> Seq<Seq<char>> {
    paths.map_values(|s: String| s@)
}

/// The paths recorded under hash `h`.
pub open spec fn members(rel: Set<(Seq<u8>, Seq<char>)>, h: Seq<u8>) -> Set<Seq<char>> {
    Set::new(|p: Seq<char>| rel.contains((h, p)))
}

/// Hash `h` is shared by two different paths.
pub open spec fn shared(rel: Set<(Seq<u8>, Seq<char>)>, h: Seq<u8>) -> bool {
    exists|p: Seq<char>, q: Seq<char>| p != q && rel.contains((h, p)) && rel.contains((h, q))
}

/// Each path is recorded under one hash at most.
pub open spec fn one_hash_per_path(rel: Set<(Seq<u8>, Seq<char>)>) -> bool {
    forall|g: Seq<u8>, h: Seq<u8>, p: Seq<char>|
        rel.contains((g, p)) && rel.contains((h, p)) ==> g == h
}

/// The duplicate sets of a relation: for each hash that two paths share, the
/// set of all paths recorded under it.
pub open spec fn group_sets(rel: Set<(Seq<u8>, Seq<char>)>) -> Set<Set<Seq<char>>> {
    Set::new(|s: Set<Seq<char>>| exists|h: Seq<u8>| shared(rel, h) && s == members(rel, h))
}

/// The relation recorded by inserting `events` one after the other into `rel`.
pub open spec fn recorded(
    rel: Set<(Seq<u8>, Seq<char>)>,
    events: Seq<(Seq<u8>, Seq<char>)>,
) -> Set<(Seq<u8>, Seq<char>)>
    decreases events.len(),
{
    if events.len() == 0 {
        rel
    } else {
        recorded(rel, events.drop_last()).insert(events.last())
    }
}

proof fn lemma_recorded_is_set(events: Seq<(Seq<u8>, Seq<char>)>)
    ensures
        recorded(Set::empty(), events) == events.to_set(),
    decreases events.len(),
{
    if events.len() > 0 {
        let front = events.drop_last();
        lemma_recorded_is_set(front);
        assert forall|x: (Seq<u8>, Seq<char>)| #[trigger] events.to_set().contains(x) <==> front.to_set().insert(events.last()).contains(x) by {
            if events.to_set().contains(x) && x != events.last() {
                let i = choose|i: int| 0 <= i < events.len() && events[i] == x;
                assert(front[i] == x);
            }
            if front.to_set().contains(x) {
                let i = choose|i: int| 0 <= i < front.len() && front[i] == x;
                assert(events[i] == x);
            }
            if x == events.last() {
                assert(events[events.len() - 1] == x);
            }
        }
        assert(events.to_set() =~= front.to_set().insert(events.last()));
    }
}

/// Scanning an unchanged tree twice groups its files alike: the pairs of
/// (hash, path) that the workers report may come in any order, and any pair
/// may come more than once, yet the recorded relation, and so the duplicate
/// sets, depend only on which pairs came.
pub proof fn lemma_grouping_ignores_order(
    a: Seq<(Seq<u8>, Seq<char>)>,
    b: Seq<(Seq<u8>, Seq<char>)>,
)
    requires
        a.to_set() == b.to_set(),
    ensures
        recorded(Set::empty(), a) == recorded(Set::empty(), b),
        group_sets(recorded(Set::empty(), a)) == group_sets(recorded(Set::empty(), b)),
{
    lemma_recorded_is_set(a);
    lemma_recorded_is_set(b);
}

/// The paths that hashed alike, with their hash.
pub struct HashGroup {
    pub hash: Vec<u8>,
    pub paths: Vec<String>,
}

#[verifier::external_type_specification]
#[verifier::external_body]
#[verifier::reject_recursive_types(K)]
#[verifier::reject_recursive_types(V)]
#[verifier::reject_recursive_types(S)]
pub struct ExDashMap<K, V, S>(dashmap::DashMap<K, V, S>);

#[verifier::external_type_specification]
#[verifier::external_body]
#[verifier::reject_recursive_types(K)]
#[verifier::reject_recursive_types(S)]
pub struct ExDashSet<K, S>(dashmap::DashSet<K, S>);

/// The (hash, path) pairs a map of hash buckets holds: `(h, p)` where `p` is
/// in the set under key `h`.
pub uninterp spec fn bucket_pairs(m: dashmap::DashMap<Vec<u8>, dashmap::DashSet<String>>) -> Set<(Seq<u8>, Seq<char>)>;

/// The strings a set holds.
pub uninterp spec fn set_items(s: dashmap::DashSet<String>) -> Set<Seq<char>>;

/// Relies on `DashMap::new`: a map with no entries.
#[verifier::external_body]
fn new_buckets() -> (r: dashmap::DashMap<Vec<u8>, dashmap::DashSet<String>>)
    ensures
        bucket_pairs(r) == Set::<(Seq<u8>, Seq<char>)>::empty(),
{
    dashmap::DashMap::new()
}

/// Relies on `DashMap::entry`, `Entry::or_insert` and `DashSet::insert`:
/// `path` joins the set under `hash`, which is created empty if missing.
#[verifier::external_body]
fn add_to_bucket(m: &mut dashmap::DashMap<Vec<u8>, dashmap::DashSet<String>>, hash: Vec<u8>, path: String)
    ensures
        bucket_pairs(*final(m)) == bucket_pairs(*old(m)).insert((hash@, path@)),
{
    m.entry(hash).or_insert(dashmap::DashSet::new()).insert(path);
}

/// Relies on `DashMap`'s and `DashSet`'s `into_iter`: each key once, with
/// each member of its set once.
#[verifier::external_body]
fn into_buckets(m: dashmap::DashMap<Vec<u8>, dashmap::DashSet<String>>) -> (r: Vec<HashGroup>)
    ensures
        forall|i: int, j: int| 0 <= i < j < r@.len() ==> r@[i].hash@ != r@[j].hash@,
        forall|i: int|
            0 <= i < r@.len() ==> path_seq((#[trigger] r@[i]).paths@).no_duplicates()
                && path_seq(r@[i].paths@).to_set() == members(bucket_pairs(m), r@[i].hash@),
        forall|h: Seq<u8>, p: Seq<char>|
            bucket_pairs(m).contains((h, p)) ==> exists|i: int| 0 <= i < r@.len() && (#[trigger] r@[i].hash@) == h,
{
    m.into_iter().map(|(hash, set)| HashGroup { hash, paths: set.into_iter().collect() }).collect()
}

/// Relies on `DashSet::new`: a set with no members.
#[verifier::external_body]
pub(crate) fn new_set() -> (r: dashmap::DashSet<String>)
    ensures
        set_items(r) == Set::<Seq<char>>::empty(),
{
    dashmap::DashSet::new()
}

/// Relies on `DashSet::insert`: adds `item`, and says whether it was absent.
#[verifier::external_body]
pub(crate) fn add_to_set(s: &mut dashmap::DashSet<String>, item: String) -> (r: bool)
    ensures
        r == !set_items(*old(s)).contains(item@),
        set_items(*final(s)) == set_items(*old(s)).insert(item@),
{
    s.insert(item)
}

/// Relies on `DashSet`'s `into_iter`: each member once.
#[verifier::external_body]
pub(crate) fn into_items(s: dashmap::DashSet<String>) -> (r: Vec<String>)
    ensures
        r@.map_values(|x: String| x@).to_set() == set_items(s),
        r@.map_values(|x: String| x@).no_duplicates(),
{
    s.into_iter().collect()
}

/// Collects, for each perceptual hash, the set of paths that produced it,
/// and records each path under its first hash only.
pub struct Aggregator {
    buckets: dashmap::DashMap<Vec<u8>, dashmap::DashSet<String>>,
    seen: dashmap::DashSet<String>,
}

impl Aggregator {
    /// The paths seen are those of the recorded pairs.
    pub closed spec fn wf(&self) -> bool {
        &&& forall|p: Seq<char>| #[trigger] set_items(self.seen).contains(p)
            <==> exists|h: Seq<u8>| bucket_pairs(self.buckets).contains((h, p))
        &&& one_hash_per_path(bucket_pairs(self.buckets))
    }

    /// The recorded (hash, path) pairs.
    pub closed spec fn view(&self) -> Set<(Seq<u8>, Seq<char>)> {
        bucket_pairs(self.buckets)
    }

    pub fn new() -> (r: Aggregator)
        ensures
            r.wf(),
            r@ == Set::<(Seq<u8>, Seq<char>)>::empty(),
    {
        Aggregator { buckets: new_buckets(), seen: new_set() }
    }

    /// Records that `path` hashed to `hash`, unless the path was recorded
    /// before; says whether it was recorded now.
    pub fn insert(&mut self, hash: Vec<u8>, path: String) -> (r: bool)
        requires
            old(self).wf(),
        ensures
            final(self).wf(),
            one_hash_per_path(final(self)@),
            r == !exists|h: Seq<u8>| #[trigger] old(self)@.contains((h, path@)),
            final(self)@ == if r {
                old(self)@.insert((hash@, path@))
            } else {
                old(self)@
            },
    {
        let ghost old_rel = self@;
        let ghost old_seen = set_items(self.seen);
        if add_to_set(&mut self.seen, path.clone()) {
            let ghost pr = (hash@, path@);
            add_to_bucket(&mut self.buckets, hash, path);
            proof {
                assert(!old_seen.contains(pr.1));
                assert forall|g: Seq<u8>| !old_rel.contains((g, pr.1)) by {
                    if old_rel.contains((g, pr.1)) {
                        assert(exists|h: Seq<u8>| bucket_pairs(old(self).buckets).contains((h, pr.1)));
                        assert(set_items(old(self).seen).contains(pr.1));
                    }
                }
                assert forall|p: Seq<char>| #[trigger] set_items(self.seen).contains(p)
                    <==> exists|h: Seq<u8>| bucket_pairs(self.buckets).contains((h, p)) by {
                    if p == pr.1 {
                        assert(bucket_pairs(self.buckets).contains(pr));
                    } else {
                        if set_items(self.seen).contains(p) {
                            assert(set_items(old(self).seen).contains(p));
                            let h = choose|h: Seq<u8>| bucket_pairs(old(self).buckets).contains((h, p));
                            assert(bucket_pairs(self.buckets).contains((h, p)));
                        }
                        if exists|h: Seq<u8>| bucket_pairs(self.buckets).contains((h, p)) {
                            let h = choose|h: Seq<u8>| bucket_pairs(self.buckets).contains((h, p));
                            assert(bucket_pairs(old(self).buckets).contains((h, p)));
                            assert(set_items(old(self).seen).contains(p));
                            assert(set_items(self.seen).contains(p));
                        }
                    }
                }
                assert forall|g: Seq<u8>, h: Seq<u8>, p: Seq<char>|
                    self@.contains((g, p)) && self@.contains((h, p)) implies g == h by {
                    if p == pr.1 {
                        assert(!old_rel.contains((g, p)));
                        assert(!old_rel.contains((h, p)));
                    } else {
                        assert(old_rel.contains((g, p)));
                        assert(old_rel.contains((h, p)));
                    }
                }
            }
            true
        } else {
            assert(set_items(self.seen) =~= old_seen);
            assert(set_items(old(self).seen).contains(path@));
            assert forall|p: Seq<char>| #[trigger] set_items(self.seen).contains(p)
                implies exists|h: Seq<u8>| bucket_pairs(self.buckets).contains((h, p)) by {
                assert(set_items(old(self).seen).contains(p));
                let h = choose|h: Seq<u8>| bucket_pairs(old(self).buckets).contains((h, p));
                assert(bucket_pairs(self.buckets).contains((h, p)));
            }
            false
        }
    }

    /// The hashes that two or more paths share: each once, with all of its
    /// paths.
    pub fn into_groups(self) -> (r: Vec<HashGroup>)
        requires
            self.wf(),
        ensures
            forall|i: int|
                0 <= i < r@.len() ==> {
                    &&& (#[trigger] r@[i]).paths@.len() >= 2
                    &&& path_seq(r@[i].paths@).no_duplicates()
                    &&& path_seq(r@[i].paths@).to_set() == members(self@, r@[i].hash@)
                },
            forall|i: int, j: int| 0 <= i < j < r@.len() ==> r@[i].hash@ != r@[j].hash@,
            forall|h: Seq<u8>|
                shared(self@, h) ==> exists|i: int| 0 <= i < r@.len() && (#[trigger] r@[i].hash@) == h,
    {
        let ghost rel = self@;
        let mut all = into_buckets(self.buckets);
        let ghost whole = all@;
        let mut r: Vec<HashGroup> = Vec::new();
        let ghost mut idx: Seq<int> = Seq::empty();
        while all.len() > 0
            invariant
                all@.len() <= whole.len(),
                all@ == whole.subrange(0, all@.len() as int),
                forall|i: int, j: int| 0 <= i < j < whole.len() ==> whole[i].hash@ != whole[j].hash@,
                forall|i: int|
                    0 <= i < whole.len() ==> path_seq((#[trigger] whole[i]).paths@).no_duplicates()
                        && path_seq(whole[i].paths@).to_set() == members(rel, whole[i].hash@),
                idx.len() == r@.len(),
                forall|i: int| 0 <= i < r@.len() ==> all@.len() <= #[trigger] idx[i] < whole.len()
                    && r@[i] == whole[idx[i]] && whole[idx[i]].paths@.len() >= 2,
                forall|i: int, k: int| 0 <= i < k < r@.len() ==> idx[i] > idx[k],
                forall|j: int| all@.len() <= j < whole.len() && (#[trigger] whole[j]).paths@.len() >= 2
                    ==> exists|i: int| 0 <= i < r@.len() && idx[i] == j,
            decreases all@.len(),
        {
            let g = all.pop().unwrap();
            let ghost j = all@.len() as int;
            assert(all@ =~= whole.subrange(0, j));
            assert(whole[j] == g);
            let ghost old_idx = idx;
            if g.paths.len() >= 2 {
                r.push(g);
                proof {
                    idx = idx.push(j);
                    assert(idx[idx.len() - 1] == j);
                    assert forall|m: int| j <= m < whole.len() && (#[trigger] whole[m]).paths@.len() >= 2
                        implies exists|i: int| 0 <= i < r@.len() && idx[i] == m by {
                        if m > j {
                            let i = choose|i: int| 0 <= i < old_idx.len() && old_idx[i] == m;
                            assert(idx[i] == m);
                        } else {
                            assert(idx[idx.len() - 1] == m);
                        }
                    }
                }
            }
        }
        proof {
            assert forall|h: Seq<u8>| shared(rel, h) implies exists|i: int|
                0 <= i < r@.len() && (#[trigger] r@[i].hash@) == h by {
                let (p, q) = choose|p: Seq<char>, q: Seq<char>|
                    p != q && rel.contains((h, p)) && rel.contains((h, q));
                let a = choose|a: int| 0 <= a < whole.len() && (#[trigger] whole[a].hash@) == h;
                let ps = path_seq(whole[a].paths@);
                assert(members(rel, h).contains(p) && members(rel, h).contains(q));
                assert(ps.to_set().contains(p) && ps.to_set().contains(q));
                let b1 = choose|b: int| 0 <= b < ps.len() && ps[b] == p;
                let b2 = choose|b: int| 0 <= b < ps.len() && ps[b] == q;
                assert(b1 != b2);
                assert(whole[a].paths@.len() >= 2);
                let i = choose|i: int| 0 <= i < r@.len() && idx[i] == a;
                assert(r@[i].hash@ == h);
            }
            assert forall|i: int| 0 <= i < r@.len() implies {
                &&& (#[trigger] r@[i]).paths@.len() >= 2
                &&& path_seq(r@[i].paths@).no_duplicates()
                &&& path_seq(r@[i].paths@).to_set() == members(rel, r@[i].hash@)
            } by {
                assert(r@[i] == whole[idx[i]]);
            }
            assert forall|i: int, k: int| 0 <= i < k < r@.len() implies r@[i].hash@ != r@[k].hash@ by {
                assert(idx[i] > idx[k]);
            }
        }
        r
    }
}

} // verus!
