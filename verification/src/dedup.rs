//! Making entity ids unique within a feed. The rows of one alert or one set
//! of trip modifications are held together by their id, so an id that comes
//! twice is given a new one.

use crate::text::{decimal, lemma_decimal_injective, push_decimal};
use vstd::prelude::*;
use vstd::set_lib::{lemma_int_range, set_int_range};
use vstd::string::StringExecFns;

verus! {

/// The text put between an id and the number of its duplicate.
pub open spec fn duplicate_infix() -> Seq<char> {
    "_duplicated_"@
}

/// The `k`-th replacement tried for a duplicated `id`.
pub open spec fn duplicate_candidate(id: Seq<char>, k: nat) -> Seq<char> {
    id + duplicate_infix() + decimal(k)
}

pub proof fn lemma_candidate_injective(id: Seq<char>, a: nat, b: nat)
    requires
        duplicate_candidate(id, a) == duplicate_candidate(id, b),
    ensures
        a == b,
{
    let p = id + duplicate_infix();
    let ca = duplicate_candidate(id, a);
    let cb = duplicate_candidate(id, b);
    assert(ca.subrange(p.len() as int, ca.len() as int) =~= decimal(a));
    assert(cb.subrange(p.len() as int, cb.len() as int) =~= decimal(b));
    lemma_decimal_injective(a, b);
}

/// `k` numbers the first candidate for `id` that `used` does not hold.
pub open spec fn is_first_free(used: Seq<Seq<char>>, id: Seq<char>, k: nat) -> bool {
    &&& k >= 1
    &&& !used.contains(duplicate_candidate(id, k))
    &&& forall|j: nat| 1 <= j < k ==> used.contains(#[trigger] duplicate_candidate(id, j))
}

/// The id handed out for `id` when `used` have been handed out before: `id`
/// itself if it is new, else its first candidate that is new.
pub open spec fn next_id(used: Seq<Seq<char>>, id: Seq<char>) -> Seq<char> {
    if !used.contains(id) {
        id
    } else {
        duplicate_candidate(id, choose|k: nat| is_first_free(used, id, k))
    }
}

pub proof fn lemma_first_free_unique(used: Seq<Seq<char>>, id: Seq<char>, a: nat, b: nat)
    requires
        is_first_free(used, id, a),
        is_first_free(used, id, b),
    ensures
        a == b,
{
    if a < b {
        assert(used.contains(duplicate_candidate(id, a)));
    } else if b < a {
        assert(used.contains(duplicate_candidate(id, b)));
    }
}

/// If the candidates numbered by `js` all occur in `used`, there are no more
/// of them than `used` has entries.
proof fn lemma_candidates_fit(used: Seq<Seq<char>>, id: Seq<char>, js: Set<int>)
    requires
        js.finite(),
        forall|j: int| #[trigger] js.contains(j) ==> j >= 0 && used.contains(duplicate_candidate(id, j as nat)),
    ensures
        js.len() <= used.len(),
    decreases used.len(),
{
    if used.len() == 0 {
        assert(js =~= Set::<int>::empty());
    } else {
        let x = used.last();
        let rest = used.drop_last();
        let js2 = js.filter(|j: int| duplicate_candidate(id, j as nat) != x);
        js.lemma_len_filter(|j: int| duplicate_candidate(id, j as nat) != x);
        assert forall|j: int| #[trigger] js2.contains(j) implies j >= 0 && rest.contains(
            duplicate_candidate(id, j as nat),
        ) by {
            let c = duplicate_candidate(id, j as nat);
            let i = choose|i: int| 0 <= i < used.len() && used[i] == c;
            assert(i != used.len() - 1);
            assert(rest[i] == c);
        }
        lemma_candidates_fit(rest, id, js2);
        if exists|j0: int| js.contains(j0) && duplicate_candidate(id, j0 as nat) == x {
            let j0 = choose|j0: int| js.contains(j0) && duplicate_candidate(id, j0 as nat) == x;
            assert forall|j: int| js.contains(j) && !js2.contains(j) implies j == j0 by {
                lemma_candidate_injective(id, j as nat, j0 as nat);
            }
            assert(js =~= js2.insert(j0));
        } else {
            assert(js =~= js2);
        }
    }
}

proof fn lemma_first_free_exists(used: Seq<Seq<char>>, id: Seq<char>, k: nat)
    requires
        k >= 1,
        !used.contains(duplicate_candidate(id, k)),
    ensures
        exists|m: nat| is_first_free(used, id, m),
    decreases k,
{
    if forall|j: nat| 1 <= j < k ==> used.contains(#[trigger] duplicate_candidate(id, j)) {
        assert(is_first_free(used, id, k));
    } else {
        let j = choose|j: nat| 1 <= j < k && !used.contains(#[trigger] duplicate_candidate(id, j));
        lemma_first_free_exists(used, id, j);
    }
}

/// The id handed out is never one handed out before.
pub proof fn lemma_next_id_fresh(used: Seq<Seq<char>>, id: Seq<char>)
    ensures
        !used.contains(next_id(used, id)),
        next_id(used, id) == id || exists|k: nat|
            k >= 1 && next_id(used, id) == #[trigger] duplicate_candidate(id, k),
{
    if used.contains(id) {
        let n = used.len() + 1;
        if forall|j: nat| 1 <= j <= n ==> used.contains(#[trigger] duplicate_candidate(id, j)) {
            let js = set_int_range(1, (n + 1) as int);
            lemma_int_range(1, (n + 1) as int);
            assert forall|j: int| #[trigger] js.contains(j) implies j >= 0 && used.contains(
                duplicate_candidate(id, j as nat),
            ) by {
                assert(used.contains(duplicate_candidate(id, j as nat)));
            }
            lemma_candidates_fit(used, id, js);
        }
        let k = choose|k: nat| 1 <= k <= n && !used.contains(#[trigger] duplicate_candidate(id, k));
        lemma_first_free_exists(used, id, k);
        let m = choose|m: nat| is_first_free(used, id, m);
        assert(next_id(used, id) == duplicate_candidate(id, m));
    }
}

/// The ids a fresh deduplicator hands out for `ids`, one call after another
/// (each call hands out `next_id` of the ids before it and remembers it).
pub open spec fn dedup_all(ids: Seq<Seq<char>>) -> Seq<Seq<char>>
    decreases ids.len(),
{
    if ids.len() == 0 {
        Seq::empty()
    } else {
        let prev = dedup_all(ids.drop_last());
        prev.push(next_id(prev, ids.last()))
    }
}

/// Over any number of calls, the ids handed out are all different, one for
/// each call, and each is the id asked for or that id followed by
/// "_duplicated_" and a number.
pub proof fn lemma_dedup_all(ids: Seq<Seq<char>>)
    ensures
        dedup_all(ids).len() == ids.len(),
        dedup_all(ids).no_duplicates(),
        forall|i: int|
            0 <= i < ids.len() ==> #[trigger] dedup_all(ids)[i] == ids[i] || exists|k: nat|
                k >= 1 && dedup_all(ids)[i] == #[trigger] duplicate_candidate(ids[i], k),
    decreases ids.len(),
{
    if ids.len() > 0 {
        let init = ids.drop_last();
        lemma_dedup_all(init);
        let prev = dedup_all(init);
        let x = ids.last();
        lemma_next_id_fresh(prev, x);
        let r = dedup_all(ids);
        assert(r == prev.push(next_id(prev, x)));
        assert forall|a: int, b: int| 0 <= a < r.len() && 0 <= b < r.len() && a != b implies r[a]
            != r[b] by {
            if a == prev.len() {
                assert(prev.contains(prev[b]));
            } else if b == prev.len() {
                assert(prev.contains(prev[a]));
            }
        }
        assert forall|i: int| 0 <= i < ids.len() implies #[trigger] r[i] == ids[i] || exists|k: nat|
            k >= 1 && r[i] == #[trigger] duplicate_candidate(ids[i], k) by {
            if i < init.len() {
                assert(r[i] == prev[i]);
                assert(ids[i] == init[i]);
            }
        }
    }
}

/// The ids handed out so far, each once.
pub struct IdDeduplicator {
    set: Vec<String>,
}

impl View for IdDeduplicator {
    type V = Seq<Seq<char>>;

    closed spec fn view(&self) -> Seq<Seq<char>> {
        self.set.deep_view()
    }
}

impl IdDeduplicator {
    #[verifier::type_invariant]
    closed spec fn wf(&self) -> bool {
        self@.no_duplicates()
    }

    /// How many ids have been handed out.
    pub fn len(&self) -> (r: usize)
        ensures
            r == self@.len(),
    {
        self.set.len()
    }

    /// A deduplicator that has handed out no id.
    pub fn new() -> (r: IdDeduplicator)
        ensures
            r@ == Seq::<Seq<char>>::empty(),
    {
        let r = IdDeduplicator { set: Vec::new() };
        assert(r@ =~= Seq::<Seq<char>>::empty());
        r
    }

    fn contains(&self, id: &String) -> (r: bool)
        ensures
            r == self@.contains(id@),
    {
        let mut i: usize = 0;
        while i < self.set.len()
            invariant
                0 <= i <= self.set@.len(),
                forall|j: int| 0 <= j < i ==> self@[j] != id@,
            decreases self.set@.len() - i,
        {
            if self.set[i] == *id {
                assert(self@[i as int] == id@);
                return true;
            }
            i += 1;
        }
        assert(!self@.contains(id@));
        false
    }

    /// The first candidate for `id` that has not been handed out.
    fn first_free_candidate(&self, id: &String) -> (r: String)
        requires
            self@.no_duplicates(),
            self@.len() < usize::MAX,
        ensures
            exists|k: nat|
                k >= 1 && r@ == duplicate_candidate(id@, k) && forall|j: nat|
                    1 <= j < k ==> self@.contains(#[trigger] duplicate_candidate(id@, j)),
            !self@.contains(r@),
    {
        proof {
            reveal_strlit("_duplicated_");
        }
        let mut dupecount: u64 = 1;
        loop
            invariant
                self@.no_duplicates(),
                self@.len() < usize::MAX,
                1 <= dupecount <= self@.len() + 1,
                forall|j: nat|
                    1 <= j < dupecount ==> self@.contains(#[trigger] duplicate_candidate(id@, j)),
            decreases self@.len() + 1 - dupecount,
        {
            let mut new_id = id.clone();
            new_id.append("_duplicated_");
            push_decimal(&mut new_id, dupecount);
            assert(new_id@ =~= duplicate_candidate(id@, dupecount as nat));
            if self.contains(&new_id) {
                proof {
                    let js = set_int_range(1, dupecount + 1);
                    lemma_int_range(1, dupecount + 1);
                    assert forall|j: int| #[trigger] js.contains(j) implies j >= 0 && self@.contains(
                        duplicate_candidate(id@, j as nat),
                    ) by {
                        if j < dupecount {
                            assert(self@.contains(duplicate_candidate(id@, j as nat)));
                        }
                    }
                    lemma_candidates_fit(self@, id@, js);
                }
                dupecount += 1;
            } else {
                return new_id;
            }
        }
    }

    /// Hands out `id` if it is new; otherwise the first of `id` followed by
    /// "_duplicated_1", "_duplicated_2", ... that is new. The id handed out is
    /// remembered.
    pub fn deduplicate_id(&mut self, id: String) -> (r: String)
        requires
            old(self)@.len() < usize::MAX,
        ensures
            !old(self)@.contains(id@) ==> r@ == id@,
            old(self)@.contains(id@) ==> exists|k: nat|
                k >= 1 && r@ == duplicate_candidate(id@, k) && forall|j: nat|
                    1 <= j < k ==> old(self)@.contains(#[trigger] duplicate_candidate(id@, j)),
            !old(self)@.contains(r@),
            r@ == next_id(old(self)@, id@),
            final(self)@ == old(self)@.push(r@),
            final(self)@.no_duplicates(),
    {
        proof {
            use_type_invariant(&*self);
        }
        let r = if self.contains(&id) {
            let c = self.first_free_candidate(&id);
            proof {
                let k = choose|k: nat|
                    k >= 1 && c@ == duplicate_candidate(id@, k) && forall|j: nat|
                        1 <= j < k ==> self@.contains(#[trigger] duplicate_candidate(id@, j));
                assert(is_first_free(self@, id@, k));
                let k2 = choose|k: nat| is_first_free(self@, id@, k);
                lemma_first_free_unique(self@, id@, k, k2);
            }
            c
        } else {
            id
        };
        let ghost before = self@;
        let ghost rv = r@;
        let mut set: Vec<String> = Vec::new();
        std::mem::swap(&mut set, &mut self.set);
        set.push(r.clone());
        assert(set.deep_view() =~= before.push(rv));
        self.set = set;
        r
    }
}


/// An id met before in its file, and the id handed out in its place.
pub struct ReplacedId {
    pub id: String,
    pub replacement: String,
}

impl DeepView for ReplacedId {
    type V = (Seq<char>, Seq<char>);

    open spec fn deep_view(&self) -> (Seq<char>, Seq<char>) {
        (self.id@, self.replacement@)
    }
}

/// `reps` with `(orig, id)` added where `id` replaces `orig`.
pub open spec fn note_replacement(
    reps: Seq<(Seq<char>, Seq<char>)>,
    orig: Seq<char>,
    id: Seq<char>,
) -> Seq<(Seq<char>, Seq<char>)> {
    if id != orig {
        reps.push((orig, id))
    } else {
        reps
    }
}

/// Hands out the id for `id`, and notes it in `replaced` where it is not
/// `id` itself.
pub fn take_id(d: &mut IdDeduplicator, id: &String, replaced: &mut Vec<ReplacedId>) -> (r: String)
    requires
        old(d)@.len() < usize::MAX,
    ensures
        r@ == next_id(old(d)@, id@),
        final(d)@ == old(d)@.push(r@),
        final(replaced).deep_view() == note_replacement(old(replaced).deep_view(), id@, r@),
{
    let r = d.deduplicate_id(id.clone());
    let ghost p0 = replaced.deep_view();
    if !(r == *id) {
        let item = ReplacedId { id: id.clone(), replacement: r.clone() };
        assert(item.deep_view() == (id@, r@));
        replaced.push(item);
        assert(replaced.deep_view() =~= p0.push((id@, r@)));
    }
    r
}

} // verus!
