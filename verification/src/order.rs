use std::collections::VecDeque;

use vstd::hash_set::StringHashSet;
use vstd::prelude::*;

verus! {

/// The identifier of a session, as it travels in the `Mcp-Session-Id` header.
pub type SessionId = String;

/// The text of each identifier in turn.
pub open spec fn id_texts(ids: Seq<SessionId>) -> Seq<Seq<char>> {
    Seq::new(ids.len(), |i: int| ids[i]@)
}

/// Holds of every identifier but `id`.
pub open spec fn other_than(id: Seq<char>) -> spec_fn(Seq<char>) -> bool {
    |s: Seq<char>| s != id
}

/// Holds of the identifiers in `ids`.
pub open spec fn among(ids: Set<Seq<char>>) -> spec_fn(Seq<char>) -> bool {
    |s: Seq<char>| ids.contains(s)
}

/// The identifiers of sessions in the order in which they were created, oldest first.
pub struct CreationOrder {
    ids: VecDeque<SessionId>,
}

impl View for CreationOrder {
    type V = Seq<Seq<char>>;

    closed spec fn view(&self) -> Seq<Seq<char>> {
        id_texts(self.ids@)
    }
}

/// Filtering a sequence that is one element longer.
proof fn lemma_filter_take<A>(s: Seq<A>, keep: spec_fn(A) -> bool, i: int)
    requires
        0 <= i < s.len(),
    ensures
        s.take(i + 1).filter(keep) == (if keep(s[i]) {
            s.take(i).filter(keep).push(s[i])
        } else {
            s.take(i).filter(keep)
        }),
{
    reveal(Seq::filter);
    assert(s.take(i + 1).drop_last() == s.take(i));
}

impl CreationOrder {
    /// An order without sessions.
    pub fn new() -> (order: CreationOrder)
        ensures
            order@ == Seq::<Seq<char>>::empty(),
    {
        let order = CreationOrder { ids: VecDeque::new() };
        assert(order@ == Seq::<Seq<char>>::empty());
        order
    }

    /// The number of sessions.
    pub fn len(&self) -> (n: usize)
        ensures
            n == self@.len(),
    {
        self.ids.len()
    }

    /// The oldest session, if there is one.
    pub fn oldest(&self) -> (id: Option<SessionId>)
        ensures
            match id {
                Some(id) => self@.len() > 0 && id@ == self@[0],
                None => self@.len() == 0,
            },
    {
        if self.ids.len() == 0 {
            None
        } else {
            Some(self.ids[0].clone())
        }
    }

    /// Appends a session as the youngest.
    pub fn push(&mut self, id: SessionId)
        ensures
            final(self)@ == old(self)@.push(id@),
    {
        self.ids.push_back(id);
        assert(self@ == old(self)@.push(id@));
    }

    /// The oldest sessions beyond the youngest `limit`.
    pub fn beyond(&self, limit: usize) -> (ids: Vec<SessionId>)
        ensures
            id_texts(ids@) == (if self@.len() > limit {
                self@.take(self@.len() - limit)
            } else {
                Seq::empty()
            }),
    {
        let mut ids: Vec<SessionId> = Vec::new();
        let n: usize = self.ids.len();
        let mut i: usize = 0;
        assert(id_texts(ids@) == self@.take(0));
        while i < n && n - i > limit
            invariant
                i <= n,
                n == self@.len(),
                i > 0 ==> n - i >= limit,
                id_texts(ids@) == self@.take(i as int),
            decreases n - i,
        {
            let ghost before = ids@;
            ids.push(self.ids[i as usize].clone());
            i += 1;
            assert(id_texts(ids@) == id_texts(before).push(self@[i - 1]));
            assert(self@.take(i as int) == self@.take(i - 1).push(self@[i - 1]));
        }
        ids
    }

    /// Drops every entry of the session `id`.
    pub fn remove(&mut self, id: &SessionId)
        ensures
            final(self)@ == old(self)@.filter(other_than(id@)),
    {
        let ghost before = self@;
        let mut kept: VecDeque<SessionId> = VecDeque::new();
        let n: usize = self.ids.len();
        let mut i: usize = 0;
        proof {
            reveal(Seq::filter);
            assert(id_texts(kept@) == before.take(0).filter(other_than(id@)));
        }
        while i < n
            invariant
                i <= n,
                n == before.len(),
                id_texts(self.ids@) == before.skip(i as int),
                id_texts(kept@) == before.take(i as int).filter(other_than(id@)),
            decreases n - i,
        {
            proof {
                lemma_filter_take(before, other_than(id@), i as int);
            }
            let ghost kept_before = kept@;
            let ghost rest = self.ids@;
            assert(rest.len() == id_texts(rest).len());
            if let Some(s) = self.ids.pop_front() {
                assert(s@ == id_texts(rest)[0]);
                assert(id_texts(self.ids@) == id_texts(rest).skip(1));
                assert(id_texts(rest).skip(1) == before.skip(i + 1));
                if s != *id {
                    kept.push_back(s);
                    assert(id_texts(kept@) == id_texts(kept_before).push(s@));
                }
            }
            i += 1;
        }
        assert(before.take(n as int) == before);
        self.ids = kept;
    }

    /// Drops every entry of a session that is not in `live`.
    pub fn retain_live(&mut self, live: &Vec<SessionId>)
        ensures
            final(self)@ == old(self)@.filter(among(id_texts(live@).to_set())),
    {
        let live_ids = collect_ids(live);
        let ghost before = self@;
        let ghost texts = id_texts(live@).to_set();
        let mut kept: VecDeque<SessionId> = VecDeque::new();
        let n: usize = self.ids.len();
        let mut i: usize = 0;
        proof {
            reveal(Seq::filter);
            assert(id_texts(kept@) == before.take(0).filter(among(texts)));
        }
        while i < n
            invariant
                i <= n,
                n == before.len(),
                live_ids@ == texts,
                id_texts(self.ids@) == before.skip(i as int),
                id_texts(kept@) == before.take(i as int).filter(among(texts)),
            decreases n - i,
        {
            proof {
                lemma_filter_take(before, among(texts), i as int);
            }
            let ghost kept_before = kept@;
            let ghost rest = self.ids@;
            assert(rest.len() == id_texts(rest).len());
            if let Some(s) = self.ids.pop_front() {
                assert(s@ == id_texts(rest)[0]);
                assert(id_texts(self.ids@) == id_texts(rest).skip(1));
                assert(id_texts(rest).skip(1) == before.skip(i + 1));
                if live_ids.contains(s.as_str()) {
                    kept.push_back(s);
                    assert(id_texts(kept@) == id_texts(kept_before).push(s@));
                }
            }
            i += 1;
        }
        assert(before.take(n as int) == before);
        self.ids = kept;
    }
}

/// The identifiers of a list as a set.
fn collect_ids(ids: &Vec<SessionId>) -> (set: StringHashSet)
    ensures
        set@ == id_texts(ids@).to_set(),
{
    let mut set = StringHashSet::new();
    let mut i: usize = 0;
    while i < ids.len()
        invariant
            i <= ids@.len(),
            forall|s: Seq<char>|
                #[trigger] set@.contains(s) <==> exists|j: int| 0 <= j < i && ids@[j]@ == s,
        decreases ids@.len() - i,
    {
        let _ = set.insert(ids[i].clone());
        i += 1;
    }
    proof {
        assert forall|s: Seq<char>| set@.contains(s) <==> #[trigger] id_texts(ids@).to_set().contains(
            s,
        ) by {
            if set@.contains(s) {
                let j = choose|j: int| 0 <= j < i && ids@[j]@ == s;
                assert(id_texts(ids@)[j] == s);
            }
            if id_texts(ids@).to_set().contains(s) {
                let j = choose|j: int| 0 <= j < ids@.len() && id_texts(ids@)[j] == s;
                assert(ids@[j]@ == s);
            }
        }
        assert(set@ == id_texts(ids@).to_set());
    }
    set
}

} // verus!
