//! The identity-correlation table.
//!
//! A grant is applied under the sender's page identifier, but the page
//! it opens here has an identifier of its own.  This table remembers
//! which local page each remote session produced, so that a later
//! revoke for the same session targets the right page — and never a
//! stranger's.
use vstd::prelude::*;

verus! {

/// What a revoke should act on.
///
/// `Mapped` carries the local page a grant for this session created;
/// `Fallback` says no grant is on record, and carries the raw remote
/// identifier for a best-effort attempt.
pub enum RevokeTarget {
    Mapped(String),
    Fallback(String),
}

/// Mathematical model of a revoke target.
#[verifier::ext_equal]
pub ghost enum RevokeTargetV {
    Mapped(Seq<char>),
    Fallback(Seq<char>),
}

impl View for RevokeTarget {
    type V = RevokeTargetV;

    open spec fn view(&self) -> RevokeTargetV {
        match self {
            RevokeTarget::Mapped(s) => RevokeTargetV::Mapped(s@),
            RevokeTarget::Fallback(s) => RevokeTargetV::Fallback(s@),
        }
    }
}

/// The map a sequence of recordings denotes: the newest binding for a
/// key wins, exactly as recording a grant again overwrites the old
/// page.
pub open spec fn map_of(entries: Seq<(Seq<char>, Seq<char>)>) -> Map<Seq<char>, Seq<char>>
    decreases entries.len(),
{
    if entries.len() == 0 {
        Map::empty()
    } else {
        map_of(entries.drop_last()).insert(entries.last().0, entries.last().1)
    }
}

/// Where a revoke for session `k` goes, given the recorded map: the
/// granted local page if one is on record, else the raw identifier.
pub open spec fn spec_resolve(m: Map<Seq<char>, Seq<char>>, k: Seq<char>) -> RevokeTargetV {
    if m.contains_key(k) {
        RevokeTargetV::Mapped(m[k])
    } else {
        RevokeTargetV::Fallback(k)
    }
}

/// A revoke for a session granted as local page `l` targets `l` — not
/// the session identifier the wire message carried.
pub proof fn lemma_revoke_targets_granted_page(
    m: Map<Seq<char>, Seq<char>>,
    s: Seq<char>,
    l: Seq<char>,
)
    ensures
        spec_resolve(m.insert(s, l), s) == RevokeTargetV::Mapped(l),
{
}

/// A revoke for a session never granted here resolves to a fallback
/// carrying the raw identifier: it has an answer, never a fault.
pub proof fn lemma_unknown_revoke_falls_back(m: Map<Seq<char>, Seq<char>>, s: Seq<char>)
    requires
        !m.contains_key(s),
    ensures
        spec_resolve(m, s) == RevokeTargetV::Fallback(s),
{
}

/// The remote-session to local-page table.  One entry per session:
/// recording a session again overwrites its entry in place.
pub struct TabIdentityMap {
    entries: Vec<(String, String)>,
}

impl TabIdentityMap {
    /// No two entries name the same session.
    #[verifier::type_invariant]
    closed spec fn wf(self) -> bool {
        forall|i: int, j: int| 0 <= i < j < self.entries@.len()
            ==> self.entries@[i].0@ != self.entries@[j].0@
    }
}

impl View for TabIdentityMap {
    type V = Map<Seq<char>, Seq<char>>;

    closed spec fn view(&self) -> Map<Seq<char>, Seq<char>> {
        map_of(
            Seq::new(
                self.entries@.len(),
                |i: int|
                    if 0 <= i < self.entries@.len() {
                        (self.entries@[i].0@, self.entries@[i].1@)
                    } else {
                        (Seq::empty(), Seq::empty())
                    },
            ),
        )
    }
}

/// Overwriting the entry that names `k` is, at the map, an insertion
/// for `k` (the entries' sessions must be distinct for this).
proof fn lemma_map_of_update(
    entries: Seq<(Seq<char>, Seq<char>)>,
    i: int,
    k: Seq<char>,
    l: Seq<char>,
)
    requires
        0 <= i < entries.len(),
        entries[i].0 == k,
        forall|a: int, b: int| 0 <= a < b < entries.len() ==> entries[a].0 != entries[b].0,
    ensures
        map_of(entries.update(i, (k, l))) == map_of(entries).insert(k, l),
    decreases entries.len(),
{
    let w = entries.update(i, (k, l));
    let t = entries.drop_last();
    if i == entries.len() - 1 {
        assert(w.drop_last() =~= t);
        assert(w.last() == (k, l));
        assert(map_of(w) == map_of(t).insert(k, l));
        assert(map_of(entries) == map_of(t).insert(k, entries.last().1));
        assert(map_of(t).insert(k, entries.last().1).insert(k, l) =~= map_of(t).insert(k, l));
    } else {
        assert(forall|a: int| 0 <= a < t.len() ==> #[trigger] t[a] == entries[a]);
        lemma_map_of_update(t, i, k, l);
        let lk = entries.last().0;
        let ll = entries.last().1;
        assert(lk != k);
        assert(w.drop_last() =~= t.update(i, (k, l)));
        assert(w.last() == (lk, ll));
        assert(map_of(w) == map_of(t).insert(k, l).insert(lk, ll));
        assert(map_of(entries).insert(k, l) == map_of(t).insert(lk, ll).insert(k, l));
        assert(map_of(t).insert(k, l).insert(lk, ll) =~= map_of(t).insert(lk, ll).insert(k, l));
    }
}

/// Bindings at position `n` and beyond do not mention `k`: the map
/// restricted to the first `n` answers for `k`.
proof fn lemma_map_of_skip(entries: Seq<(Seq<char>, Seq<char>)>, k: Seq<char>, n: int)
    requires
        0 <= n <= entries.len(),
        forall|j: int| n <= j < entries.len() ==> (#[trigger] entries[j]).0 != k,
    ensures
        map_of(entries).contains_key(k) == map_of(entries.take(n)).contains_key(k),
        map_of(entries).contains_key(k) ==> map_of(entries)[k] == map_of(entries.take(n))[k],
    decreases entries.len() - n,
{
    if n < entries.len() {
        let t = entries.take(entries.len() - 1);
        assert(t =~= entries.drop_last());
        assert(forall|j: int| 0 <= j < t.len() ==> #[trigger] t[j] == entries[j]);
        lemma_map_of_skip(t, k, n);
        assert(entries.take(n) =~= t.take(n));
        assert(entries.last().0 != k);
    } else {
        assert(entries.take(n) =~= entries);
    }
}

impl TabIdentityMap {
    /// An empty table: no session has been granted yet.
    pub fn new() -> (r: TabIdentityMap)
        ensures
            r@ == Map::<Seq<char>, Seq<char>>::empty(),
    {
        TabIdentityMap { entries: Vec::new() }
    }

    /// Record that the grant for session `remote` produced local page
    /// `local`, overwriting any earlier page for that session in
    /// place: the table holds one entry per session ever granted.
    pub fn record(&mut self, remote: String, local: String)
        ensures
            final(self)@ == old(self)@.insert(remote@, local@),
    {
        proof {
            use_type_invariant(&*self);
        }
        let ghost before = Seq::new(
            self.entries@.len(),
            |i: int|
                if 0 <= i < self.entries@.len() {
                    (self.entries@[i].0@, self.entries@[i].1@)
                } else {
                    (Seq::empty(), Seq::empty())
                },
        );
        let ghost p = (remote@, local@);
        let mut entries: Vec<(String, String)> = Vec::new();
        core::mem::swap(&mut entries, &mut self.entries);
        let ghost old_entries = entries@;
        let mut i: usize = 0;
        let mut found = false;
        while i < entries.len() && !found
            invariant
                0 <= i <= entries.len(),
                before.len() == old_entries.len(),
                forall|k: int| 0 <= k < before.len()
                    ==> #[trigger] before[k] == (old_entries[k].0@, old_entries[k].1@),
                forall|a: int, b: int| 0 <= a < b < old_entries.len()
                    ==> old_entries[a].0@ != old_entries[b].0@,
                !found ==> entries@ == old_entries,
                !found ==> forall|k: int| 0 <= k < i ==> (#[trigger] before[k]).0 != remote@,
                found ==> 0 < i <= entries@.len() && entries@ =~= old_entries.update(
                    i - 1,
                    (old_entries[i - 1].0, entries@[i - 1].1),
                ) && before[i - 1].0 == remote@ && entries@[i - 1].1@ == local@,
                entries@.len() == old_entries.len(),
            decreases entries.len() - i,
        {
            if crate::json::str_eq(entries[i].0.as_str(), remote.as_str()) {
                entries[i].1 = local.clone();
                found = true;
            }
            i = i + 1;
        }
        if !found {
            entries.push((remote, local));
        }
        proof {
            let after = Seq::new(
                entries@.len(),
                |k: int|
                    if 0 <= k < entries@.len() {
                        (entries@[k].0@, entries@[k].1@)
                    } else {
                        (Seq::empty(), Seq::empty())
                    },
            );
            if found {
                assert(after =~= before.update(i as int - 1, p));
                lemma_map_of_update(before, i as int - 1, p.0, p.1);
                assert(map_of(after) == map_of(before).insert(p.0, p.1));
                assert forall|a: int, b: int| 0 <= a < b < entries@.len()
                    implies entries@[a].0@ != entries@[b].0@ by {
                    assert(old_entries[a].0@ != old_entries[b].0@);
                }
            } else {
                assert(after.drop_last() =~= before);
                assert(after.last() == p);
                assert(map_of(after) == map_of(before).insert(p.0, p.1));
                assert forall|a: int, b: int| 0 <= a < b < entries@.len()
                    implies entries@[a].0@ != entries@[b].0@ by {
                    if b < old_entries.len() {
                        assert(old_entries[a].0@ != old_entries[b].0@);
                    } else {
                        assert(before[a].0 != remote@);
                    }
                }
            }
        }
        core::mem::swap(&mut entries, &mut self.entries);
    }

    /// The local page recorded for `remote`, if a grant for it was
    /// applied here.
    pub fn lookup(&self, remote: &str) -> (r: Option<String>)
        ensures
            (r is Some) == self@.contains_key(remote@),
            r matches Some(x) ==> x@ == self@[remote@],
    {
        let ghost es = Seq::new(
            self.entries@.len(),
            |i: int|
                if 0 <= i < self.entries@.len() {
                    (self.entries@[i].0@, self.entries@[i].1@)
                } else {
                    (Seq::empty(), Seq::empty())
                },
        );
        let mut i: usize = self.entries.len();
        while i > 0
            invariant
                0 <= i <= self.entries.len(),
                es.len() == self.entries@.len(),
                forall|k: int| 0 <= k < es.len()
                    ==> #[trigger] es[k] == (self.entries@[k].0@, self.entries@[k].1@),
                self@ == map_of(es),
                forall|j: int| i <= j < es.len() ==> (#[trigger] es[j]).0 != remote@,
            decreases i,
        {
            i = i - 1;
            if crate::json::str_eq(self.entries[i].0.as_str(), remote) {
                proof {
                    lemma_map_of_skip(es, remote@, i as int + 1);
                    let w = es.take(i as int + 1);
                    assert(w.drop_last() =~= es.take(i as int));
                    assert(w.last() == es[i as int]);
                    assert(map_of(w) == map_of(es.take(i as int)).insert(
                        es[i as int].0,
                        es[i as int].1,
                    ));
                    assert(self@.contains_key(remote@));
                    assert(self@[remote@] == es[i as int].1);
                }
                return Some(self.entries[i].1.clone());
            }
        }
        proof {
            lemma_map_of_skip(es, remote@, 0);
            assert(es.take(0) =~= Seq::<(Seq<char>, Seq<char>)>::empty());
            assert(!self@.contains_key(remote@));
        }
        None
    }

    /// Where a revoke for session `remote` should go: the page its
    /// grant opened here, or — with nothing on record — the raw
    /// identifier, as a best effort.  There is an answer for every
    /// session; an unknown one is never a fault.
    pub fn resolve_revoke(&self, remote: &str) -> (r: RevokeTarget)
        ensures
            r@ == spec_resolve(self@, remote@),
    {
        match self.lookup(remote) {
            Some(local) => RevokeTarget::Mapped(local),
            None => RevokeTarget::Fallback(remote.to_owned()),
        }
    }
}

} // verus!
