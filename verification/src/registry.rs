//! The registry of named sessions.
//!
//! Sessions are kept in the order of their names, so that every listing comes
//! out sorted.

use crate::error::ToolError;
use crate::text;
use vstd::prelude::*;

verus! {

/// Registry of named sessions.
pub struct SessionManager<S> {
    entries: Vec<(String, S)>,
}

/// The entry of a name, if there is one.
spec fn entry_at<S>(entries: Seq<(String, S)>, name: Seq<char>, i: int) -> bool {
    0 <= i < entries.len() && entries[i].0@ == name
}

/// Names rise strictly.
spec fn names_rise<S>(entries: Seq<(String, S)>) -> bool {
    forall|i: int, j: int|
        0 <= i < j < entries.len() ==> text::text_lt(
            (#[trigger] entries[i]).0@,
            (#[trigger] entries[j]).0@,
        )
}

impl<S> View for SessionManager<S> {
    type V = Map<Seq<char>, S>;

    closed spec fn view(&self) -> Map<Seq<char>, S> {
        Map::new(
            |name: Seq<char>| exists|i: int| entry_at(self.entries@, name, i),
            |name: Seq<char>| self.entries@[choose|i: int| entry_at(self.entries@, name, i)].1,
        )
    }
}

impl<S> SessionManager<S> {
    /// The names of all sessions, in order.
    pub closed spec fn ordered(&self) -> Seq<Seq<char>> {
        Seq::new(self.entries@.len(), |i: int| self.entries@[i].0@)
    }

    /// No name occurs twice, and names rise.
    pub closed spec fn wf(&self) -> bool {
        names_rise(self.entries@)
    }

    proof fn lemma_entry(&self, i: int)
        requires
            self.wf(),
            0 <= i < self.entries@.len(),
        ensures
            self@.contains_key(self.entries@[i].0@),
            self@[self.entries@[i].0@] == self.entries@[i].1,
            forall|j: int|
                entry_at(self.entries@, self.entries@[i].0@, j) ==> j == i,
    {
        let name = self.entries@[i].0@;
        assert(entry_at(self.entries@, name, i));
        assert forall|j: int| entry_at(self.entries@, name, j) implies j == i by {
            text::text_lt_irreflexive(name);
            if j < i {
                assert(text::text_lt(self.entries@[j].0@, self.entries@[i].0@));
            } else if i < j {
                assert(text::text_lt(self.entries@[i].0@, self.entries@[j].0@));
            }
        }
    }

    pub fn new() -> (m: Self)
        ensures
            m.wf(),
            m@ == Map::<Seq<char>, S>::empty(),
    {
        let m = SessionManager { entries: Vec::new() };
        assert(m@ =~= Map::<Seq<char>, S>::empty());
        m
    }

    /// The number of sessions.
    pub fn len(&self) -> (n: usize)
        ensures
            n == self.ordered().len(),
    {
        self.entries.len()
    }

    /// Where a name stands, or where it would have to stand.
    fn find(&self, name: &str) -> (r: Result<usize, usize>)
        requires
            self.wf(),
        ensures
            r matches Ok(i) ==> entry_at(self.entries@, name@, i as int),
            r matches Err(i) ==> i <= self.entries@.len() && !self@.contains_key(name@) && (forall|
                j: int,
            |
                0 <= j < i ==> text::text_lt((#[trigger] self.entries@[j]).0@, name@)) && (forall|
                j: int,
            |
                i <= j < self.entries@.len() ==> text::text_lt(
                    name@,
                    (#[trigger] self.entries@[j]).0@,
                )),
    {
        let mut i: usize = 0;
        while i < self.entries.len() && text::str_lt(self.entries[i].0.as_str(), name)
            invariant
                i <= self.entries@.len(),
                forall|j: int|
                    0 <= j < i ==> text::text_lt((#[trigger] self.entries@[j]).0@, name@),
            decreases self.entries.len() - i,
        {
            i += 1;
        }
        if i < self.entries.len() && text::str_eq(self.entries[i].0.as_str(), name) {
            return Ok(i);
        }
        proof {
            text::text_lt_irreflexive(name@);
            if i < self.entries@.len() {
                let here = self.entries@[i as int].0@;
                text::text_lt_total(here, name@);
                assert forall|j: int| i <= j < self.entries@.len() implies text::text_lt(
                    name@,
                    (#[trigger] self.entries@[j]).0@,
                ) by {
                    if j > i {
                        assert(text::text_lt(here, self.entries@[j].0@));
                        text::text_lt_transitive(name@, here, self.entries@[j].0@);
                    }
                }
            }
            assert(!self@.contains_key(name@)) by {
                if self@.contains_key(name@) {
                    let j = choose|j: int| entry_at(self.entries@, name@, j);
                    assert(self.entries@[j].0@ == name@);
                }
            }
        }
        Err(i)
    }

    /// Refuses a name that is taken.
    pub fn vacancy(&self, name: &str) -> (r: Result<(), ToolError>)
        requires
            self.wf(),
        ensures
            r is Ok <==> !self@.contains_key(name@),
            r matches Err(e) ==> (e matches ToolError::NameTaken(n) && n@ == name@),
    {
        match self.find(name) {
            Ok(_) => {
                let taken = name.to_string();
                Err(ToolError::NameTaken(taken))
            },
            Err(_) => Ok(()),
        }
    }

    /// Adds a session under a name that is free.
    pub fn create(&mut self, name: String, session: S) -> (r: Result<(), ToolError>)
        requires
            old(self).wf(),
        ensures
            final(self).wf(),
            r is Ok <==> !old(self)@.contains_key(name@),
            r is Ok ==> final(self)@ == old(self)@.insert(name@, session),
            r matches Err(e) ==> (e matches ToolError::NameTaken(n) && n@ == name@) && *final(self)
                == *old(self),
    {
        let at = match self.find(name.as_str()) {
            Ok(_) => {
                return Err(ToolError::NameTaken(name));
            },
            Err(at) => at,
        };
        let ghost before = *self;
        let ghost key = name@;
        self.entries.insert(at, (name, session));
        proof {
            let e = before.entries@;
            let f = self.entries@;
            assert(f =~= e.insert(at as int, (name, session)));
            assert forall|i: int, j: int| 0 <= i < j < f.len() implies text::text_lt(
                (#[trigger] f[i]).0@,
                (#[trigger] f[j]).0@,
            ) by {
                let i0 = if i < at {
                    i
                } else {
                    i - 1
                };
                let j0 = if j < at {
                    j
                } else {
                    j - 1
                };
                if i != at && j != at {
                    assert(f[i] == e[i0]);
                    assert(f[j] == e[j0]);
                } else if i == at {
                    assert(f[j] == e[j0]);
                } else {
                    assert(f[i] == e[i0]);
                }
            }
            assert(self.wf());
            assert forall|n: Seq<char>| #[trigger] self@.contains_key(n) <==> before@.insert(
                key,
                session,
            ).contains_key(n) by {
                if before@.contains_key(n) {
                    let i = choose|i: int| entry_at(e, n, i);
                    if i < at {
                        assert(entry_at(f, n, i));
                    } else {
                        assert(entry_at(f, n, i + 1));
                    }
                }
                if n == key {
                    assert(entry_at(f, n, at as int));
                }
                if self@.contains_key(n) && n != key {
                    let i = choose|i: int| entry_at(f, n, i);
                    if i < at {
                        assert(entry_at(e, n, i));
                    } else {
                        assert(entry_at(e, n, i - 1));
                    }
                }
            }
            assert forall|n: Seq<char>| #[trigger] self@.contains_key(n) implies self@[n]
                == before@.insert(key, session)[n] by {
                let i = choose|i: int| entry_at(f, n, i);
                self.lemma_entry(i);
                if i < at {
                    assert(f[i] == e[i]);
                    before.lemma_entry(i);
                    text::text_lt_irreflexive(key);
                } else if i > at {
                    assert(f[i] == e[i - 1]);
                    before.lemma_entry(i - 1);
                    text::text_lt_irreflexive(key);
                }
            }
            assert(self@ =~= before@.insert(key, session));
        }
        Ok(())
    }

    /// The session of a name, to be worked on.
    pub fn with(&mut self, name: &str) -> (r: Result<&mut S, ToolError>)
        requires
            old(self).wf(),
        ensures
            final(self).wf(),
            r is Ok <==> old(self)@.contains_key(name@),
            r matches Ok(s) ==> *s == old(self)@[name@] && final(self)@ == old(self)@.insert(
                name@,
                *final(s),
            ) && final(self).ordered() == old(self).ordered(),
            r matches Err(e) ==> (e matches ToolError::NoSession(n) && n@ == name@)
                && *final(self) == *old(self),
    {
        match self.find(name) {
            Ok(i) => {
                let ghost before = *self;
                proof {
                    before.lemma_entry(i as int);
                    let key = before.entries@[i as int].0;
                    assert forall|after: SessionManager<S>, v: S|
                        #![trigger before@.insert(name@, v), after@]
                        after.entries@ =~= before.entries@.update(i as int, (key, v)) implies after@
                        == before@.insert(name@, v) by {
                        lemma_update(before, after, i as int, v);
                    }
                }
                let s = &mut self.entries[i].1;
                Ok(s)
            },
            Err(_) => {
                let missing = name.to_string();
                Err(ToolError::NoSession(missing))
            },
        }
    }

    /// Takes a session out of the registry.
    pub fn remove(&mut self, name: &str) -> (r: Result<S, ToolError>)
        requires
            old(self).wf(),
        ensures
            final(self).wf(),
            r is Ok <==> old(self)@.contains_key(name@),
            r matches Ok(s) ==> s == old(self)@[name@] && final(self)@ == old(self)@.remove(name@),
            r matches Err(e) ==> (e matches ToolError::NoSession(n) && n@ == name@)
                && *final(self) == *old(self),
    {
        let at = match self.find(name) {
            Ok(at) => at,
            Err(_) => {
                let missing = name.to_string();
                return Err(ToolError::NoSession(missing));
            },
        };
        let ghost before = *self;
        let entry = self.entries.remove(at);
        proof {
            before.lemma_entry(at as int);
            let e = before.entries@;
            let f = self.entries@;
            assert(f =~= e.remove(at as int));
            assert forall|i: int, j: int| 0 <= i < j < f.len() implies text::text_lt(
                (#[trigger] f[i]).0@,
                (#[trigger] f[j]).0@,
            ) by {
                let i0 = if i < at {
                    i
                } else {
                    i + 1
                };
                let j0 = if j < at {
                    j
                } else {
                    j + 1
                };
                assert(f[i] == e[i0]);
                assert(f[j] == e[j0]);
            }
            assert(self.wf());
            assert forall|n: Seq<char>| #[trigger] self@.contains_key(n) <==> before@.remove(
                name@,
            ).contains_key(n) by {
                if before@.contains_key(n) && n != name@ {
                    let i = choose|i: int| entry_at(e, n, i);
                    if i < at {
                        assert(entry_at(f, n, i));
                    } else {
                        assert(entry_at(f, n, i - 1));
                    }
                }
                if self@.contains_key(n) {
                    let i = choose|i: int| entry_at(f, n, i);
                    if i < at {
                        assert(entry_at(e, n, i));
                    } else {
                        assert(entry_at(e, n, i + 1));
                    }
                }
            }
            assert forall|n: Seq<char>| #[trigger] self@.contains_key(n) implies self@[n]
                == before@.remove(name@)[n] by {
                let i = choose|i: int| entry_at(f, n, i);
                self.lemma_entry(i);
                if i < at {
                    assert(f[i] == e[i]);
                    before.lemma_entry(i);
                } else {
                    assert(f[i] == e[i + 1]);
                    before.lemma_entry(i + 1);
                }
            }
            assert(self@ =~= before@.remove(name@));
        }
        Ok(entry.1)
    }
}

/// The members of the first `n` whose flag has a value, in order.
pub open spec fn picked<T>(s: Seq<T>, flags: Seq<bool>, want: bool, n: nat) -> Seq<T>
    decreases n,
{
    if n == 0 {
        Seq::empty()
    } else {
        let before = picked(s, flags, want, (n - 1) as nat);
        if flags[n - 1] == want {
            before.push(s[n - 1])
        } else {
            before
        }
    }
}

spec fn names_of<S>(entries: Seq<(String, S)>) -> Seq<Seq<char>> {
    Seq::new(entries.len(), |i: int| entries[i].0@)
}

proof fn lemma_picked_names<S>(e: Seq<(String, S)>, flags: Seq<bool>, want: bool, n: nat)
    requires
        n <= e.len(),
        e.len() == flags.len(),
    ensures
        names_of(picked(e, flags, want, n)) == picked(names_of(e), flags, want, n),
    decreases n,
{
    if n > 0 {
        lemma_picked_names(e, flags, want, (n - 1) as nat);
        let before = picked(e, flags, want, (n - 1) as nat);
        if flags[n - 1] == want {
            assert(names_of(before.push(e[n - 1])) =~= names_of(before).push(names_of(e)[n - 1]));
        }
    } else {
        assert(names_of(picked(e, flags, want, n)) =~= picked(names_of(e), flags, want, n));
    }
}

/// Where a picked member comes from, and that the picked names rise as all do.
proof fn lemma_picked<S>(e: Seq<(String, S)>, flags: Seq<bool>, want: bool, n: nat)
    requires
        n <= e.len(),
        e.len() == flags.len(),
        names_rise(e),
    ensures
        names_rise(picked(e, flags, want, n)),
        forall|i: int|
            0 <= i < picked(e, flags, want, n).len() ==> exists|k: int|
                0 <= k < n && flags[k] == want && e[k] == #[trigger] picked(e, flags, want, n)[i],
        forall|k: int|
            0 <= k < n && flags[k] == want ==> picked(e, flags, want, n).contains(#[trigger] e[k]),
    decreases n,
{
    if n > 0 {
        lemma_picked(e, flags, want, (n - 1) as nat);
        let before = picked(e, flags, want, (n - 1) as nat);
        let now = picked(e, flags, want, n);
        assert forall|i: int| 0 <= i < now.len() implies exists|k: int|
            0 <= k < n && flags[k] == want && e[k] == #[trigger] now[i] by {
            if i < before.len() {
                let k = choose|k: int| 0 <= k < n - 1 && flags[k] == want && e[k] == before[i];
                assert(e[k] == now[i]);
            } else {
                assert(e[n - 1] == now[i]);
            }
        }
        assert forall|k: int| 0 <= k < n && flags[k] == want implies now.contains(
            #[trigger] e[k],
        ) by {
            if k < n - 1 {
                assert(before.contains(e[k]));
                let i = choose|i: int| 0 <= i < before.len() && before[i] == e[k];
                assert(now[i] == e[k]);
            } else {
                assert(now[now.len() - 1] == e[k]);
            }
        }
        assert forall|i: int, j: int| 0 <= i < j < now.len() implies text::text_lt(
            (#[trigger] now[i]).0@,
            (#[trigger] now[j]).0@,
        ) by {
            if j < before.len() {
                assert(text::text_lt(before[i].0@, before[j].0@));
            } else {
                let k = choose|k: int| 0 <= k < n - 1 && flags[k] == want && e[k] == before[i];
                assert(text::text_lt(e[k].0@, e[n - 1].0@));
            }
        }
    }
}

/// What the operating system and the session say of a session.
pub struct SessionFacts {
    pub kind: &'static str,
    pub pid: Option<u32>,
    pub cmdline: String,
    pub cwd: String,
    pub status: Option<String>,
}

/// A single session's metadata, as reported by [`SessionManager::list`].
pub struct SessionInfo {
    pub name: String,
    pub kind: &'static str,
    pub pid: Option<u32>,
    pub cmdline: String,
    pub cwd: String,
    pub status: Option<String>,
}

/// Whether an entry of a listing holds a name and the facts on a session.
pub open spec fn tells(info: SessionInfo, name: Seq<char>, facts: SessionFacts) -> bool {
    &&& info.name@ == name
    &&& info.kind == facts.kind
    &&& info.pid == facts.pid
    &&& info.cmdline == facts.cmdline
    &&& info.cwd == facts.cwd
    &&& info.status == facts.status
}

impl<S> SessionManager<S> {
    /// The session at a place in the order of names, to be worked on.
    pub fn at(&mut self, i: usize) -> (s: &mut S)
        requires
            old(self).wf(),
            i < old(self).ordered().len(),
        ensures
            final(self).wf(),
            *s == old(self)@[old(self).ordered()[i as int]],
            final(self)@ == old(self)@.insert(old(self).ordered()[i as int], *final(s)),
            final(self).ordered() == old(self).ordered(),
    {
        let ghost before = *self;
        let ghost name = self.entries@[i as int].0@;
        proof {
            before.lemma_entry(i as int);
            let key = before.entries@[i as int].0;
            assert forall|after: SessionManager<S>, v: S|
                #![trigger before@.insert(name, v), after@]
                after.entries@ =~= before.entries@.update(i as int, (key, v)) implies after@
                == before@.insert(name, v) by {
                lemma_update(before, after, i as int, v);
            }
        }
        &mut self.entries[i].1
    }

    /// Takes out every session whose program has exited, given for each session
    /// in the order of names whether it has. Those taken out are handed back in
    /// that order.
    pub fn purge_exited(&mut self, exited: &[bool]) -> (r: Vec<(String, S)>)
        requires
            old(self).wf(),
            exited@.len() == old(self).ordered().len(),
        ensures
            final(self).wf(),
            r@.len() == picked(old(self).ordered(), exited@, true, exited@.len()).len(),
            forall|i: int|
                0 <= i < r@.len() ==> (#[trigger] r@[i]).0@ == picked(
                    old(self).ordered(),
                    exited@,
                    true,
                    exited@.len(),
                )[i] && r@[i].1 == old(self)@[r@[i].0@],
            final(self).ordered() == picked(old(self).ordered(), exited@, false, exited@.len()),
            final(self)@ == old(self)@.remove_keys(
                picked(old(self).ordered(), exited@, true, exited@.len()).to_set(),
            ),
    {
        let ghost before = *self;
        let ghost e = self.entries@;
        let ghost flags = exited@;
        let mut gone: Vec<(String, S)> = Vec::new();
        let mut at: usize = 0;
        let mut i: usize = 0;
        assert(picked(e, flags, false, 0) + e.skip(0) =~= e);
        while i < exited.len()
            invariant
                flags == exited@,
                flags.len() == e.len(),
                at <= i <= flags.len(),
                at == picked(e, flags, false, i as nat).len(),
                self.entries@ == picked(e, flags, false, i as nat) + e.skip(i as int),
                gone@ == picked(e, flags, true, i as nat),
            decreases exited.len() - i,
        {
            let ghost kept = picked(e, flags, false, i as nat);
            let ghost rest = e.skip(i as int);
            assert((kept + rest)[at as int] == e[i as int]);
            if exited[i] {
                let entry = self.entries.remove(at);
                assert((kept + rest).remove(at as int) =~= kept + e.skip(i + 1));
                gone.push(entry);
            } else {
                assert(kept + rest =~= kept.push(e[i as int]) + e.skip(i + 1));
                at += 1;
            }
            i += 1;
        }
        proof {
            let n = e.len();
            let kept = self.entries@;
            let out = gone@;
            assert(e.skip(n as int) =~= Seq::<(String, S)>::empty());
            assert(kept =~= picked(e, flags, false, n));
            lemma_picked_names(e, flags, false, n);
            lemma_picked_names(e, flags, true, n);
            lemma_picked(e, flags, false, n);
            lemma_picked(e, flags, true, n);
            assert(before.ordered() =~= names_of(e));
            assert(self.ordered() =~= names_of(kept));
            let dropped = picked(before.ordered(), flags, true, n);
            assert(dropped == names_of(out));
            assert forall|i: int| 0 <= i < out.len() implies (#[trigger] out[i]).0@ == dropped[i]
                && out[i].1 == before@[out[i].0@] by {
                let k = choose|k: int| 0 <= k < n && flags[k] == true && e[k] == out[i];
                before.lemma_entry(k);
                assert(names_of(out)[i] == out[i].0@);
            }
            assert forall|m: Seq<char>| #[trigger] self@.contains_key(m) <==> before@.remove_keys(
                dropped.to_set(),
            ).contains_key(m) by {
                if self@.contains_key(m) {
                    let i = choose|i: int| entry_at(kept, m, i);
                    let k = choose|k: int| 0 <= k < n && flags[k] == false && e[k] == kept[i];
                    assert(entry_at(e, m, k));
                    before.lemma_entry(k);
                    if dropped.contains(m) {
                        let d = choose|d: int| 0 <= d < dropped.len() && dropped[d] == m;
                        assert(names_of(out)[d] == out[d].0@);
                        let l = choose|l: int| 0 <= l < n && flags[l] == true && e[l] == out[d];
                        assert(entry_at(e, m, l));
                    }
                }
                if before@.contains_key(m) && !dropped.contains(m) {
                    let k = choose|k: int| entry_at(e, m, k);
                    if flags[k] {
                        assert(out.contains(e[k]));
                        let d = choose|d: int| 0 <= d < out.len() && out[d] == e[k];
                        assert(dropped[d] == m);
                    } else {
                        assert(kept.contains(e[k]));
                        let i = choose|i: int| 0 <= i < kept.len() && kept[i] == e[k];
                        assert(entry_at(kept, m, i));
                    }
                }
            }
            assert forall|m: Seq<char>| #[trigger] self@.contains_key(m) implies self@[m]
                == before@.remove_keys(dropped.to_set())[m] by {
                let i = choose|i: int| entry_at(kept, m, i);
                let k = choose|k: int| 0 <= k < n && flags[k] == false && e[k] == kept[i];
                self.lemma_entry(i);
                before.lemma_entry(k);
            }
            assert(self@ =~= before@.remove_keys(dropped.to_set()));
        }
        gone
    }

    /// One line item per session for `session_list`, given the facts on each
    /// session in the order of names.
    pub fn list(&self, facts: Vec<SessionFacts>) -> (r: Vec<SessionInfo>)
        requires
            facts@.len() == self.ordered().len(),
        ensures
            r@.len() == self.ordered().len(),
            forall|i: int|
                0 <= i < r@.len() ==> tells(#[trigger] r@[i], self.ordered()[i], facts@[i]),
    {
        let mut facts = facts;
        let ghost all = facts@;
        let mut out: Vec<SessionInfo> = Vec::new();
        while facts.len() > 0
            invariant
                all.len() == self.ordered().len(),
                facts@.len() <= all.len(),
                facts@ == all.take(facts@.len() as int),
                out@.len() == all.len() - facts@.len(),
                forall|i: int|
                    0 <= i < out@.len() ==> tells(
                        #[trigger] out@[i],
                        self.ordered()[i + facts@.len()],
                        all[i + facts@.len()],
                    ),
            decreases facts@.len(),
        {
            let ghost before = out@;
            let n: usize = facts.len();
            let f = match facts.pop() {
                Some(f) => f,
                None => {
                    return out;
                },
            };
            let info = SessionInfo {
                name: self.entries[n - 1].0.clone(),
                kind: f.kind,
                pid: f.pid,
                cmdline: f.cmdline,
                cwd: f.cwd,
                status: f.status,
            };
            assert(tells(info, self.ordered()[n - 1], all[n - 1]));
            out.insert(0, info);
            assert forall|i: int| 0 <= i < out@.len() implies tells(
                #[trigger] out@[i],
                self.ordered()[i + facts@.len()],
                all[i + facts@.len()],
            ) by {
                if i > 0 {
                    assert(out@[i] == before[i - 1]);
                }
            }
        }
        out
    }
}

/// The process that a signal goes to: a session must have one, and its number
/// must fit the system call.
pub fn signal_target(name: &str, pid: Option<u32>) -> (r: Result<i32, ToolError>)
    ensures
        r is Ok <==> pid is Some && pid->0 <= i32::MAX,
        r matches Ok(raw) ==> raw == pid->0,
        r matches Err(e) ==> match pid {
            None => e matches ToolError::NoProcess(n) && n@ == name@,
            Some(p) => e == ToolError::PidOutOfRange(p),
        },
{
    match pid {
        None => {
            let gone = name.to_string();
            Err(ToolError::NoProcess(gone))
        },
        Some(p) => {
            if p <= i32::MAX as u32 {
                Ok(p as i32)
            } else {
                Err(ToolError::PidOutOfRange(p))
            }
        },
    }
}

// ---- Laws -------------------------------------------------------------------

/// Every listing is sorted and complete: names rise strictly, and they are the
/// names of the sessions that exist.
pub proof fn listings_are_sorted_and_complete<S>(m: SessionManager<S>)
    requires
        m.wf(),
    ensures
        forall|i: int, j: int|
            0 <= i < j < m.ordered().len() ==> text::text_lt(
                #[trigger] m.ordered()[i],
                #[trigger] m.ordered()[j],
            ),
        forall|name: Seq<char>|
            m@.contains_key(name) <==> #[trigger] m.ordered().contains(name),
{
    let e = m.entries@;
    assert forall|i: int, j: int| 0 <= i < j < m.ordered().len() implies text::text_lt(
        #[trigger] m.ordered()[i],
        #[trigger] m.ordered()[j],
    ) by {
        assert(text::text_lt(e[i].0@, e[j].0@));
    }
    assert forall|name: Seq<char>| m@.contains_key(name) <==> #[trigger] m.ordered().contains(
        name,
    ) by {
        if m@.contains_key(name) {
            let i = choose|i: int| entry_at(e, name, i);
            assert(m.ordered()[i] == name);
        }
        if m.ordered().contains(name) {
            let i = choose|i: int| 0 <= i < m.ordered().len() && m.ordered()[i] == name;
            assert(entry_at(e, name, i));
        }
    }
}

/// Stopping a session undoes starting it, and leaves all others alone.
pub proof fn stopping_undoes_starting<S>(m: Map<Seq<char>, S>, name: Seq<char>, session: S)
    requires
        !m.contains_key(name),
    ensures
        m.insert(name, session).remove(name) == m,
{
    assert(m.insert(name, session).remove(name) =~= m);
}

/// A purge splits the sessions: each is either kept or handed back, and none is
/// both.
pub proof fn purging_splits_the_sessions<T>(s: Seq<T>, exited: Seq<bool>, n: nat)
    requires
        n <= s.len(),
        s.len() == exited.len(),
    ensures
        picked(s, exited, true, n).len() + picked(s, exited, false, n).len() == n,
        picked(s, exited, true, n).to_multiset().add(
            picked(s, exited, false, n).to_multiset(),
        ) == s.take(n as int).to_multiset(),
    decreases n,
{
    broadcast use vstd::seq_lib::group_to_multiset_ensures;

    if n > 0 {
        purging_splits_the_sessions(s, exited, (n - 1) as nat);
        let last = s[n - 1];
        assert(s.take(n as int) =~= s.take(n - 1).push(last));
        assert(picked(s, exited, true, n).to_multiset().add(
            picked(s, exited, false, n).to_multiset(),
        ) =~= s.take(n as int).to_multiset());
    } else {
        assert(s.take(0) =~= Seq::<T>::empty());
        assert(picked(s, exited, true, n).to_multiset().add(
            picked(s, exited, false, n).to_multiset(),
        ) =~= s.take(n as int).to_multiset());
    }
}

proof fn lemma_update<S>(before: SessionManager<S>, after: SessionManager<S>, at: int, v: S)
    requires
        before.wf(),
        0 <= at < before.entries@.len(),
        after.entries@ == before.entries@.update(at, (before.entries@[at].0, v)),
    ensures
        after@ == before@.insert(before.entries@[at].0@, v),
{
    let e = before.entries@;
    let f = after.entries@;
    let name = e[at].0@;
    assert(forall|i: int| 0 <= i < f.len() ==> (#[trigger] f[i]).0 == e[i].0);
    assert(names_rise(f)) by {
        assert forall|i: int, j: int| 0 <= i < j < f.len() implies text::text_lt(
            (#[trigger] f[i]).0@,
            (#[trigger] f[j]).0@,
        ) by {
            assert(text::text_lt(e[i].0@, e[j].0@));
        }
    }
    assert forall|n: Seq<char>| #[trigger] after@.contains_key(n) <==> before@.insert(
        name,
        v,
    ).contains_key(n) by {
        if before@.contains_key(n) {
            let i = choose|i: int| entry_at(e, n, i);
            assert(entry_at(f, n, i));
        }
        if n == name {
            assert(entry_at(f, n, at));
        }
        if after@.contains_key(n) {
            let i = choose|i: int| entry_at(f, n, i);
            assert(entry_at(e, n, i));
        }
    }
    assert forall|n: Seq<char>| #[trigger] after@.contains_key(n) implies after@[n]
        == before@.insert(name, v)[n] by {
        let i = choose|i: int| entry_at(f, n, i);
        after.lemma_entry(i);
        before.lemma_entry(i);
        before.lemma_entry(at);
    }
    assert(after@ =~= before@.insert(name, v));
}

/// A purge goes by what has exited: what is handed back are the sessions that have, and what
/// is kept are those that have not.
pub proof fn purges_take_what_has_exited<T>(s: Seq<T>, exited: Seq<bool>, n: nat, x: T)
    requires
        n <= s.len(),
        s.len() == exited.len(),
    ensures
        picked(s, exited, true, n).contains(x) <==> exists|k: int|
            0 <= k < n && exited[k] && #[trigger] s[k] == x,
        picked(s, exited, false, n).contains(x) <==> exists|k: int|
            0 <= k < n && !exited[k] && #[trigger] s[k] == x,
    decreases n,
{
    if n > 0 {
        purges_take_what_has_exited(s, exited, (n - 1) as nat, x);
        lemma_one_more_picked(s, exited, true, n, x);
        lemma_one_more_picked(s, exited, false, n, x);
    }
}

proof fn lemma_one_more_picked<T>(s: Seq<T>, flags: Seq<bool>, want: bool, n: nat, x: T)
    requires
        0 < n <= s.len(),
        s.len() == flags.len(),
    ensures
        picked(s, flags, want, n).contains(x) <==> picked(
            s,
            flags,
            want,
            (n - 1) as nat,
        ).contains(x) || (flags[n - 1] == want && s[n - 1] == x),
{
    let before = picked(s, flags, want, (n - 1) as nat);
    let now = picked(s, flags, want, n);
    if now.contains(x) {
        let i = choose|i: int| 0 <= i < now.len() && now[i] == x;
        if i < before.len() {
            assert(before[i] == x);
        }
    }
    if before.contains(x) {
        let i = choose|i: int| 0 <= i < before.len() && before[i] == x;
        assert(now[i] == x);
    }
    if flags[n - 1] == want && s[n - 1] == x {
        assert(now[now.len() - 1] == x);
    }
}

/// A purge keeps the order: where one session stands before another and both are handed
/// back, or both are kept, they come out in that order.
pub proof fn purges_keep_the_order<T>(
    s: Seq<T>,
    exited: Seq<bool>,
    want: bool,
    n: nat,
    i: int,
    j: int,
)
    requires
        n <= s.len(),
        s.len() == exited.len(),
        0 <= i < j < n,
        exited[i] == want,
        exited[j] == want,
    ensures
        exists|a: int, b: int|
            0 <= a < b < picked(s, exited, want, n).len() && #[trigger] picked(
                s,
                exited,
                want,
                n,
            )[a] == s[i] && #[trigger] picked(s, exited, want, n)[b] == s[j],
    decreases n,
{
    let now = picked(s, exited, want, n);
    let before = picked(s, exited, want, (n - 1) as nat);
    if j < n - 1 {
        purges_keep_the_order(s, exited, want, (n - 1) as nat, i, j);
        let (a, b) = choose|a: int, b: int|
            0 <= a < b < before.len() && #[trigger] before[a] == s[i] && #[trigger] before[b]
                == s[j];
        assert(now[a] == s[i] && now[b] == s[j]);
    } else {
        purges_take_what_has_exited(s, exited, (n - 1) as nat, s[i]);
        assert(before.contains(s[i]));
        let a = choose|a: int| 0 <= a < before.len() && before[a] == s[i];
        let b = now.len() - 1;
        assert(now[a] == s[i] && now[b] == s[j]);
    }
}

/// An entry of a listing says of a session what is so: its own name, and each fact under
/// that fact's name.
pub proof fn listings_tell_the_facts(info: SessionInfo, name: Seq<char>, facts: SessionFacts)
    requires
        tells(info, name, facts),
    ensures
        info.name@ == name,
        info.kind == facts.kind,
        info.pid == facts.pid,
        info.cmdline@ == facts.cmdline@,
        info.cwd@ == facts.cwd@,
        info.status == facts.status,
{
}

} // verus!
