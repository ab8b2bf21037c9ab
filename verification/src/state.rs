//! The choices remembered between logins: the last user, and the session
//! each user last started.

use vstd::prelude::*;

verus! {

/// The largest state file that is read.
pub const MAX_STATE_BYTES: u64 = 65536;

/// The longest user or session name, in bytes, that is kept.
pub const MAX_FIELD_LEN: usize = 256;

/// The remembered choices. Each user has at most one remembered session.
#[derive(Debug, Clone, PartialEq, Eq)]
pub struct State {
    pub last_user: Option<String>,
    pub session_by_user: Vec<(String, String)>,
}

/// The characters of each user and session of a list of pairs.
pub open spec fn pairs_view(v: Seq<(String, String)>) -> Seq<(Seq<char>, Seq<char>)> {
    v.map_values(|p: (String, String)| (p.0@, p.1@))
}

/// The map that a list of pairs describes; where a user occurs twice, the
/// later pair counts.
pub open spec fn pairs_map(s: Seq<(Seq<char>, Seq<char>)>) -> Map<Seq<char>, Seq<char>>
    decreases s.len(),
{
    if s.len() == 0 {
        Map::empty()
    } else {
        pairs_map(s.drop_last()).insert(s.last().0, s.last().1)
    }
}

/// No user occurs in two pairs.
pub open spec fn distinct_users(s: Seq<(Seq<char>, Seq<char>)>) -> bool {
    forall|i: int, j: int| 0 <= i < j < s.len() ==> #[trigger] s[i].0 != #[trigger] s[j].0
}

/// The pairs whose user is not `user`, in order.
pub open spec fn without_user(s: Seq<(Seq<char>, Seq<char>)>, user: Seq<char>) -> Seq<(Seq<char>, Seq<char>)>
    decreases s.len(),
{
    if s.len() == 0 {
        seq![]
    } else if s.last().0 == user {
        without_user(s.drop_last(), user)
    } else {
        without_user(s.drop_last(), user).push(s.last())
    }
}

/// How many bytes a character takes in UTF-8.
pub open spec fn utf8_width(c: char) -> nat {
    if (c as u32) < 0x80 {
        1
    } else if (c as u32) < 0x800 {
        2
    } else if (c as u32) < 0x10000 {
        3
    } else {
        4
    }
}

/// How many bytes a text takes in UTF-8.
pub open spec fn utf8_len(s: Seq<char>) -> nat
    decreases s.len(),
{
    if s.len() == 0 {
        0
    } else {
        utf8_len(s.drop_last()) + utf8_width(s.last())
    }
}

/// Whether a remembered name is to be dropped: it is empty, or longer than
/// [`MAX_FIELD_LEN`] bytes in UTF-8.
pub open spec fn too_long(s: Seq<char>) -> bool {
    s.len() == 0 || utf8_len(s) > MAX_FIELD_LEN
}

proof fn lemma_utf8_len_grows(s: Seq<char>, i: int, j: int)
    requires
        0 <= i <= j <= s.len(),
    ensures
        utf8_len(s.take(i)) <= utf8_len(s.take(j)),
    decreases j - i,
{
    if i < j {
        lemma_utf8_len_grows(s, i, j - 1);
        assert(s.take(j).drop_last() =~= s.take(j - 1));
    }
}

/// The pairs whose user and session are both of acceptable length.
pub open spec fn acceptable_pairs(s: Seq<(Seq<char>, Seq<char>)>) -> Seq<(Seq<char>, Seq<char>)>
    decreases s.len(),
{
    if s.len() == 0 {
        seq![]
    } else if too_long(s.last().0) || too_long(s.last().1) {
        acceptable_pairs(s.drop_last())
    } else {
        acceptable_pairs(s.drop_last()).push(s.last())
    }
}

pub open spec fn opt_view(o: Option<String>) -> Option<Seq<char>> {
    match o {
        Some(s) => Some(s@),
        None => None,
    }
}

/// The remembered choices, abstractly.
pub struct StateView {
    pub last_user: Option<Seq<char>>,
    pub sessions: Map<Seq<char>, Seq<char>>,
}

impl View for State {
    type V = StateView;

    open spec fn view(&self) -> StateView {
        StateView { last_user: opt_view(self.last_user), sessions: pairs_map(pairs_view(self.session_by_user@)) }
    }
}

impl State {
    /// No user is listed twice.
    pub open spec fn wf(&self) -> bool {
        distinct_users(pairs_view(self.session_by_user@))
    }
}

/// Dropping a user's pairs removes the user from the map, and nothing else.
proof fn lemma_without_user_map(s: Seq<(Seq<char>, Seq<char>)>, user: Seq<char>)
    ensures
        pairs_map(without_user(s, user)) == pairs_map(s).remove(user),
    decreases s.len(),
{
    if s.len() == 0 {
        assert(pairs_map(s).remove(user) =~= Map::<Seq<char>, Seq<char>>::empty());
    } else {
        lemma_without_user_map(s.drop_last(), user);
        let x = s.last();
        let prev = without_user(s.drop_last(), user);
        assert(prev.push(x).drop_last() =~= prev);
        if x.0 == user {
            assert(pairs_map(s.drop_last()).insert(x.0, x.1).remove(user) =~= pairs_map(
                s.drop_last(),
            ).remove(user));
        } else {
            assert(pairs_map(s.drop_last()).remove(user).insert(x.0, x.1) =~= pairs_map(
                s.drop_last(),
            ).insert(x.0, x.1).remove(user));
        }
    }
}

/// Every pair left after dropping a user's pairs is a pair of the list, of
/// another user.
proof fn lemma_without_user_members(s: Seq<(Seq<char>, Seq<char>)>, user: Seq<char>)
    ensures
        forall|i: int|
            0 <= i < without_user(s, user).len() ==> #[trigger] without_user(s, user)[i].0 != user
                && s.contains(without_user(s, user)[i]),
    decreases s.len(),
{
    if s.len() > 0 {
        lemma_without_user_members(s.drop_last(), user);
        let w = without_user(s, user);
        assert forall|i: int| 0 <= i < w.len() implies #[trigger] w[i].0 != user && s.contains(w[i]) by {
            let prev = without_user(s.drop_last(), user);
            if i < prev.len() {
                assert(w[i] == prev[i]);
                let j = choose|j: int| 0 <= j < s.drop_last().len() && s.drop_last()[j] == prev[i];
                assert(s[j] == prev[i]);
            } else {
                assert(w[i] == s.last());
                assert(s[s.len() - 1] == s.last());
            }
        }
    }
}

/// Dropping a user's pairs keeps the users distinct.
proof fn lemma_without_user_distinct(s: Seq<(Seq<char>, Seq<char>)>, user: Seq<char>)
    requires
        distinct_users(s),
    ensures
        distinct_users(without_user(s, user)),
    decreases s.len(),
{
    if s.len() > 0 {
        let prev = without_user(s.drop_last(), user);
        assert(distinct_users(s.drop_last()));
        lemma_without_user_distinct(s.drop_last(), user);
        lemma_without_user_members(s.drop_last(), user);
        if s.last().0 != user {
            let w = without_user(s, user);
            assert forall|i: int, j: int| 0 <= i < j < w.len() implies #[trigger] w[i].0 != #[trigger] w[j].0 by {
                if j == w.len() - 1 {
                    assert(prev[i].0 != user);
                    let k = choose|k: int| 0 <= k < s.drop_last().len() && s.drop_last()[k] == prev[i];
                    assert(s[k] == prev[i]);
                    assert(s[s.len() - 1] == s.last());
                } else {
                    assert(w[i] == prev[i]);
                    assert(w[j] == prev[j]);
                }
            }
        }
    }
}

/// The pairs kept by [`acceptable_pairs`] are pairs of the list, with
/// acceptable names.
proof fn lemma_acceptable_members(s: Seq<(Seq<char>, Seq<char>)>)
    ensures
        forall|i: int|
            0 <= i < acceptable_pairs(s).len() ==> !too_long(#[trigger] acceptable_pairs(s)[i].0)
                && !too_long(acceptable_pairs(s)[i].1) && s.contains(acceptable_pairs(s)[i]),
    decreases s.len(),
{
    if s.len() > 0 {
        lemma_acceptable_members(s.drop_last());
        let a = acceptable_pairs(s);
        let prev = acceptable_pairs(s.drop_last());
        assert forall|i: int| 0 <= i < a.len() implies !too_long(#[trigger] a[i].0) && !too_long(a[i].1)
            && s.contains(a[i]) by {
            if i < prev.len() {
                assert(a[i] == prev[i]);
                let j = choose|j: int| 0 <= j < s.drop_last().len() && s.drop_last()[j] == prev[i];
                assert(s[j] == prev[i]);
            } else {
                assert(a[i] == s.last());
                assert(s[s.len() - 1] == s.last());
            }
        }
    }
}

/// Keeping the acceptable pairs keeps the users distinct.
proof fn lemma_acceptable_distinct(s: Seq<(Seq<char>, Seq<char>)>)
    requires
        distinct_users(s),
    ensures
        distinct_users(acceptable_pairs(s)),
    decreases s.len(),
{
    if s.len() > 0 {
        let prev = acceptable_pairs(s.drop_last());
        assert(distinct_users(s.drop_last()));
        lemma_acceptable_distinct(s.drop_last());
        lemma_acceptable_members(s.drop_last());
        if !(too_long(s.last().0) || too_long(s.last().1)) {
            let a = acceptable_pairs(s);
            assert forall|i: int, j: int| 0 <= i < j < a.len() implies #[trigger] a[i].0 != #[trigger] a[j].0 by {
                if j == a.len() - 1 {
                    assert(!too_long(prev[i].0));
                    let k = choose|k: int| 0 <= k < s.drop_last().len() && s.drop_last()[k] == prev[i];
                    assert(s[k] == prev[i]);
                    assert(s[s.len() - 1] == s.last());
                } else {
                    assert(a[i] == prev[i]);
                    assert(a[j] == prev[j]);
                }
            }
        }
    }
}

fn too_long_text(value: &str) -> (r: bool)
    ensures
        r == too_long(value@),
{
    let cs = crate::text::chars_of(value);
    if cs.len() == 0 {
        return true;
    }
    let mut total: usize = 0;
    let mut i: usize = 0;
    while i < cs.len()
        invariant
            i <= cs.len(),
            cs@ == value@,
            total == utf8_len(cs@.take(i as int)),
            total <= MAX_FIELD_LEN,
        decreases cs.len() - i,
    {
        let v = cs[i] as u32;
        let width: usize = if v < 0x80 { 1 } else if v < 0x800 { 2 } else if v < 0x10000 { 3 } else { 4 };
        assert(cs@.take(i + 1).drop_last() =~= cs@.take(i as int));
        assert(cs@.take(i + 1).last() == cs@[i as int]);
        assert(width == utf8_width(cs@[i as int]));
        total = total + width;
        assert(total == utf8_len(cs@.take(i + 1)));
        if total > MAX_FIELD_LEN {
            proof {
                lemma_utf8_len_grows(cs@, i + 1, cs.len() as int);
                assert(cs@.take(cs.len() as int) =~= cs@);
            }
            return true;
        }
        i += 1;
    }
    assert(cs@.take(cs.len() as int) =~= cs@);
    false
}

impl Default for State {
    fn default() -> (s: Self)
        ensures
            s.last_user is None,
            s.session_by_user@.len() == 0,
    {
        State { last_user: None, session_by_user: Vec::new() }
    }
}

impl State {
    /// Records `user` as the last user, and `session` as the session that
    /// `user` last started, where one is given.
    pub fn remember(&mut self, user: &str, session: Option<&str>)
        ensures
            opt_view(final(self).last_user) == Some(user@),
            match session {
                Some(s) => pairs_view(final(self).session_by_user@) == without_user(
                    pairs_view(old(self).session_by_user@),
                    user@,
                ).push((user@, s@)),
                None => final(self).session_by_user@ == old(self).session_by_user@,
            },
            final(self)@.sessions == match session {
                Some(s) => old(self)@.sessions.insert(user@, s@),
                None => old(self)@.sessions,
            },
            old(self).wf() ==> final(self).wf(),
    {
        self.last_user = Some(user.to_owned());
        if let Some(session) = session {
            let name = user.to_owned();
            let ghost start = pairs_view(self.session_by_user@);
            let mut kept: Vec<(String, String)> = Vec::new();
            let mut i: usize = 0;
            while i < self.session_by_user.len()
                invariant
                    i <= self.session_by_user.len(),
                    start == pairs_view(self.session_by_user@),
                    name@ == user@,
                    pairs_view(kept@) == without_user(start.take(i as int), user@),
                decreases self.session_by_user.len() - i,
            {
                assert(start.take(i + 1).drop_last() =~= start.take(i as int));
                assert(start.take(i + 1).last() == start[i as int]);
                let pair = &self.session_by_user[i];
                if pair.0 != name {
                    kept.push((pair.0.clone(), pair.1.clone()));
                    assert(pairs_view(kept@) =~= without_user(start.take(i as int), user@).push(start[i as int]));
                }
                i += 1;
            }
            assert(start.take(self.session_by_user.len() as int) =~= start);
            kept.push((name, session.to_owned()));
            assert(pairs_view(kept@) =~= without_user(start, user@).push((user@, session@)));
            proof {
                lemma_without_user_map(start, user@);
                let w0 = without_user(start, user@);
                assert(w0.push((user@, session@)).drop_last() =~= w0);
                assert(pairs_map(start).remove(user@).insert(user@, session@) =~= pairs_map(start).insert(
                    user@,
                    session@,
                ));
                if distinct_users(start) {
                    lemma_without_user_distinct(start, user@);
                    lemma_without_user_members(start, user@);
                    let w = without_user(start, user@).push((user@, session@));
                    assert forall|i: int, j: int| 0 <= i < j < w.len() implies #[trigger] w[i].0 != #[trigger] w[j].0 by {
                        if j == w.len() - 1 {
                            assert(w[i] == without_user(start, user@)[i]);
                        } else {
                            assert(w[i] == without_user(start, user@)[i]);
                            assert(w[j] == without_user(start, user@)[j]);
                        }
                    }
                }
            }
            self.session_by_user = kept;
        }
    }

    /// Drops remembered names that are empty or too long.
    pub fn sanitize(&mut self)
        ensures
            final(self).last_user == (match old(self).last_user {
                Some(u) => if too_long(u@) { None } else { Some(u) },
                None => None,
            }),
            pairs_view(final(self).session_by_user@) == acceptable_pairs(pairs_view(old(self).session_by_user@)),
            old(self).wf() ==> final(self).wf(),
            all_acceptable(pairs_view(old(self).session_by_user@)) ==> pairs_view(
                final(self).session_by_user@,
            ) == pairs_view(old(self).session_by_user@),
    {
        let drop_user = match &self.last_user {
            Some(user) => too_long_text(user.as_str()),
            None => false,
        };
        if drop_user {
            self.last_user = None;
        }
        let ghost start = pairs_view(self.session_by_user@);
        let mut kept: Vec<(String, String)> = Vec::new();
        let mut i: usize = 0;
        while i < self.session_by_user.len()
            invariant
                i <= self.session_by_user.len(),
                start == pairs_view(self.session_by_user@),
                pairs_view(kept@) == acceptable_pairs(start.take(i as int)),
            decreases self.session_by_user.len() - i,
        {
            assert(start.take(i + 1).drop_last() =~= start.take(i as int));
            assert(start.take(i + 1).last() == start[i as int]);
            let pair = &self.session_by_user[i];
            if !too_long_text(pair.0.as_str()) && !too_long_text(pair.1.as_str()) {
                kept.push((pair.0.clone(), pair.1.clone()));
                assert(pairs_view(kept@) =~= acceptable_pairs(start.take(i as int)).push(start[i as int]));
            }
            i += 1;
        }
        assert(start.take(self.session_by_user.len() as int) =~= start);
        proof {
            if distinct_users(start) {
                lemma_acceptable_distinct(start);
            }
            if all_acceptable(start) {
                lemma_sanitize_keeps_acceptable(start);
            }
        }
        self.session_by_user = kept;
    }
}


/// After [`State::sanitize`], every remembered name is non-empty and at most
/// [`MAX_FIELD_LEN`] bytes long, and each pair kept was remembered before.
pub proof fn lemma_sanitized_names_are_acceptable(before: Seq<(Seq<char>, Seq<char>)>)
    ensures
        forall|i: int|
            0 <= i < acceptable_pairs(before).len() ==> !too_long(#[trigger] acceptable_pairs(before)[i].0)
                && !too_long(acceptable_pairs(before)[i].1) && before.contains(acceptable_pairs(before)[i]),
{
    lemma_acceptable_members(before);
}

/// Every user and session of the pairs is of acceptable length.
pub open spec fn all_acceptable(s: Seq<(Seq<char>, Seq<char>)>) -> bool {
    forall|i: int| 0 <= i < s.len() ==> !too_long(#[trigger] s[i].0) && !too_long(s[i].1)
}

/// Sanitizing keeps a list whose names are all acceptable as it is: what
/// [`State::sanitize`] does to a state read back from disk leaves a state
/// that was saved with acceptable names unchanged.
pub proof fn lemma_sanitize_keeps_acceptable(s: Seq<(Seq<char>, Seq<char>)>)
    requires
        all_acceptable(s),
    ensures
        acceptable_pairs(s) == s,
    decreases s.len(),
{
    if s.len() > 0 {
        assert(all_acceptable(s.drop_last())) by {
            assert forall|i: int| 0 <= i < s.drop_last().len() implies !too_long(#[trigger] s.drop_last()[i].0)
                && !too_long(s.drop_last()[i].1) by {
                assert(s.drop_last()[i] == s[i]);
            }
        }
        lemma_sanitize_keeps_acceptable(s.drop_last());
        assert(!too_long(s[s.len() - 1].0));
        assert(s.drop_last().push(s.last()) =~= s);
    }
}

proof fn lemma_utf8_len_bounds(s: Seq<char>)
    ensures
        s.len() <= utf8_len(s) <= 4 * s.len(),
        (forall|i: int| 0 <= i < s.len() ==> (#[trigger] s[i] as u32) < 0x80) ==> utf8_len(s) == s.len(),
    decreases s.len(),
{
    if s.len() > 0 {
        lemma_utf8_len_bounds(s.drop_last());
        if forall|i: int| 0 <= i < s.len() ==> (#[trigger] s[i] as u32) < 0x80 {
            assert forall|i: int| 0 <= i < s.drop_last().len() implies (#[trigger] s.drop_last()[i] as u32) < 0x80 by {
                assert(s.drop_last()[i] == s[i]);
            }
            assert((s[s.len() - 1] as u32) < 0x80);
        }
    }
}

/// Names are measured in UTF-8 bytes: a name of ASCII characters is dropped
/// exactly when it is empty or longer than [`MAX_FIELD_LEN`] characters; a
/// name of at most a quarter of that many characters of any kind is kept
/// when it is not empty; and a name longer than [`MAX_FIELD_LEN`] characters
/// is always dropped.
pub proof fn lemma_names_are_measured_in_bytes(name: Seq<char>)
    ensures
        (forall|i: int| 0 <= i < name.len() ==> (#[trigger] name[i] as u32) < 0x80) ==> (too_long(name)
            <==> (name.len() == 0 || name.len() > 256)),
        0 < name.len() <= 64 ==> !too_long(name),
        name.len() > 256 ==> too_long(name),
{
    lemma_utf8_len_bounds(name);
}

} // verus!
