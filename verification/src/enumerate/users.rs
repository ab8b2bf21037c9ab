//! Login users, from the lines of the password database.

use vstd::prelude::*;

use crate::text::{
    decimal, is_white, join_with, lemma_decimal_digits, lemma_decimal_reads_back,
    lemma_trim_drops_surrounding_white, lemma_join_splits_back, lemma_split_on_at_sep,
    lemma_split_on_whole, lemma_text_le_total,
    lemma_text_le_transitive,
    char_vecs_view, chars_eq, chars_le, chars_of, has_prefix, lines, parse_u32, parse_u32_chars,
    slice_chars, split, split_on, string_from, strip_prefix, text_le, text_lines, trim, trimmed,
};

verus! {

/// One account of the password database.
#[derive(Debug, Clone, PartialEq, Eq)]
pub struct PasswdEntry {
    pub username: String,
    pub uid: u32,
    pub gecos: String,
    pub shell: String,
}

/// The abstract value of a [`PasswdEntry`].
pub struct PasswdEntryView {
    pub username: Seq<char>,
    pub uid: u32,
    pub gecos: Seq<char>,
    pub shell: Seq<char>,
}

impl View for PasswdEntry {
    type V = PasswdEntryView;

    open spec fn view(&self) -> PasswdEntryView {
        PasswdEntryView {
            username: self.username@,
            uid: self.uid,
            gecos: self.gecos@,
            shell: self.shell@,
        }
    }
}

/// A user offered on the login screen.
#[derive(Debug, Clone, PartialEq, Eq)]
pub struct User {
    pub username: String,
    pub display_name: String,
    pub uid: u32,
    pub avatar: Option<String>,
}

/// The abstract value of a [`User`].
pub struct UserView {
    pub username: Seq<char>,
    pub display_name: Seq<char>,
    pub uid: u32,
    pub avatar: Option<Seq<char>>,
}

impl View for User {
    type V = UserView;

    open spec fn view(&self) -> UserView {
        UserView {
            username: self.username@,
            display_name: self.display_name@,
            uid: self.uid,
            avatar: match self.avatar {
                Some(a) => Some(a@),
                None => None,
            },
        }
    }
}

pub open spec fn entries_view(v: Seq<PasswdEntry>) -> Seq<PasswdEntryView> {
    v.map_values(|e: PasswdEntry| e@)
}

pub open spec fn users_view(v: Seq<User>) -> Seq<UserView> {
    v.map_values(|u: User| u@)
}

/// The account on one line of the password database: seven or more
/// colon-separated fields, the third a user id.
pub open spec fn passwd_line(line: Seq<char>) -> Option<PasswdEntryView> {
    let f = split_on(line, ':');
    if f.len() < 7 {
        None
    } else {
        match parse_u32(f[2]) {
            Some(uid) => Some(PasswdEntryView { username: f[0], uid, gecos: f[4], shell: f[6] }),
            None => None,
        }
    }
}

/// The accounts of the lines that hold one, in order.
pub open spec fn passwd_entries(ls: Seq<Seq<char>>) -> Seq<PasswdEntryView>
    decreases ls.len(),
{
    if ls.len() == 0 {
        seq![]
    } else {
        let before = passwd_entries(ls.drop_last());
        match passwd_line(ls.last()) {
            Some(e) => before.push(e),
            None => before,
        }
    }
}

fn parse_passwd_line(line: &[char]) -> (r: Option<PasswdEntry>)
    ensures
        match r {
            Some(e) => passwd_line(line@) == Some(e@),
            None => passwd_line(line@) is None,
        },
{
    let fields = split(line, ':');
    if fields.len() < 7 {
        return None;
    }
    let uid = match parse_u32_chars(fields[2].as_slice()) {
        Some(uid) => uid,
        None => return None,
    };
    Some(
        PasswdEntry {
            username: string_from(fields[0].as_slice()),
            uid,
            gecos: string_from(fields[4].as_slice()),
            shell: string_from(fields[6].as_slice()),
        },
    )
}

/// Reads the accounts of a password database; lines that hold no account
/// are skipped.
pub fn parse_passwd(content: &str) -> (r: Vec<PasswdEntry>)
    ensures
        entries_view(r@) == passwd_entries(lines(content@)),
{
    let text = chars_of(content);
    let ls = text_lines(text.as_slice());
    let ghost lv = char_vecs_view(ls@);
    let mut out: Vec<PasswdEntry> = Vec::new();
    let mut i: usize = 0;
    while i < ls.len()
        invariant
            i <= ls.len(),
            lv == char_vecs_view(ls@),
            lv == lines(content@),
            entries_view(out@) == passwd_entries(lv.take(i as int)),
        decreases ls.len() - i,
    {
        assert(lv.take(i + 1).drop_last() =~= lv.take(i as int));
        assert(lv.take(i + 1).last() == ls@[i as int]@);
        match parse_passwd_line(ls[i].as_slice()) {
            Some(e) => {
                out.push(e);
                assert(entries_view(out@) =~= passwd_entries(lv.take(i as int)).push(e@));
            },
            None => {},
        }
        i += 1;
    }
    assert(lv.take(ls.len() as int) =~= lv);
    out
}

/// The `UID_MIN` setting on one line of `login.defs`.
pub open spec fn uid_min_line(line: Seq<char>) -> Option<u32> {
    match strip_prefix(trim(line), "UID_MIN"@) {
        Some(rest) => parse_u32(trim(rest)),
        None => None,
    }
}

/// The first `UID_MIN` setting among the lines.
pub open spec fn first_uid_min(ls: Seq<Seq<char>>) -> Option<u32>
    decreases ls.len(),
{
    if ls.len() == 0 {
        None
    } else {
        match uid_min_line(ls[0]) {
            Some(v) => Some(v),
            None => first_uid_min(ls.drop_first()),
        }
    }
}

/// Reads the lowest user id of login users from `login.defs`.
pub fn parse_uid_min(content: &str) -> (r: Option<u32>)
    ensures
        r == first_uid_min(lines(content@)),
{
    let text = chars_of(content);
    let ls = text_lines(text.as_slice());
    let ghost lv = char_vecs_view(ls@);
    let key = chars_of("UID_MIN");
    let mut i: usize = 0;
    assert(lv.skip(0) =~= lv);
    while i < ls.len()
        invariant
            i <= ls.len(),
            lv == char_vecs_view(ls@),
            lv == lines(content@),
            key@ == "UID_MIN"@,
            first_uid_min(lv) == first_uid_min(lv.skip(i as int)),
        decreases ls.len() - i,
    {
        assert(lv.skip(i as int).drop_first() =~= lv.skip(i + 1));
        assert(lv.skip(i as int)[0] == ls@[i as int]@);
        let line = trimmed(ls[i].as_slice());
        if has_prefix(line.as_slice(), key.as_slice()) {
            let rest = slice_chars(line.as_slice(), key.len(), line.len());
            assert(rest@ =~= line@.skip(key@.len() as int));
            let value = trimmed(rest.as_slice());
            let parsed = parse_u32_chars(value.as_slice());
            if parsed.is_some() {
                return parsed;
            }
        }
        i += 1;
    }
    None
}

/// A shell name that refuses interactive logins.
pub open spec fn is_nologin_name(name: Seq<char>) -> bool {
    name == "nologin"@ || name == "false"@ || name == "sync"@ || name == "shutdown"@ || name
        == "halt"@
}

/// Whether a shell admits interactive logins: it is set, and its file name
/// is none of `nologin`, `false`, `sync`, `shutdown` and `halt`.
pub open spec fn login_shell(shell: Seq<char>) -> bool {
    shell.len() > 0 && !is_nologin_name(split_on(shell, '/').last())
}

fn is_login_shell(shell: &str) -> (r: bool)
    ensures
        r == login_shell(shell@),
{
    let s = chars_of(shell);
    if s.len() == 0 {
        return false;
    }
    let parts = split(s.as_slice(), '/');
    let name = parts[parts.len() - 1].as_slice();
    let nologin = chars_of("nologin");
    let never = chars_of("false");
    let sync = chars_of("sync");
    let shutdown = chars_of("shutdown");
    let halt = chars_of("halt");
    !(chars_eq(name, nologin.as_slice()) || chars_eq(name, never.as_slice()) || chars_eq(
        name,
        sync.as_slice(),
    ) || chars_eq(name, shutdown.as_slice()) || chars_eq(name, halt.as_slice()))
}

/// Whether an account belongs to a person who logs in.
pub open spec fn human(entry: PasswdEntryView, uid_min: u32) -> bool {
    entry.uid >= uid_min && entry.username.len() > 0 && login_shell(entry.shell)
}

/// An account belongs to a person when its user id is at least `uid_min`,
/// it has a name, and its shell admits logins.
pub fn is_human(entry: &PasswdEntry, uid_min: u32) -> (r: bool)
    ensures
        r == human(entry@, uid_min),
{
    let named = !entry.username.as_str().is_empty();
    entry.uid >= uid_min && named && is_login_shell(entry.shell.as_str())
}

/// The name shown for an account: the first comma-separated field of its
/// GECOS entry, trimmed, or the user name where that is empty.
pub open spec fn shown_name(entry: PasswdEntryView) -> Seq<char> {
    let name = trim(split_on(entry.gecos, ',')[0]);
    if name.len() == 0 {
        entry.username
    } else {
        name
    }
}

/// The name shown for an account.
pub fn display_name(entry: &PasswdEntry) -> (r: String)
    ensures
        r@ == shown_name(entry@),
{
    let gecos = chars_of(entry.gecos.as_str());
    let parts = split(gecos.as_slice(), ',');
    let name = trimmed(parts[0].as_slice());
    if name.len() == 0 {
        entry.username.clone()
    } else {
        string_from(name.as_slice())
    }
}

/// The user offered for an account.
pub open spec fn user_of(entry: PasswdEntryView) -> UserView {
    UserView { username: entry.username, display_name: shown_name(entry), uid: entry.uid, avatar: None }
}

/// The users offered for the human accounts among `entries`, in order.
pub open spec fn human_users(entries: Seq<PasswdEntryView>, uid_min: u32) -> Seq<UserView>
    decreases entries.len(),
{
    if entries.len() == 0 {
        seq![]
    } else {
        let before = human_users(entries.drop_last(), uid_min);
        if human(entries.last(), uid_min) {
            before.push(user_of(entries.last()))
        } else {
            before
        }
    }
}

/// `sorted` with `u` placed after every user whose name sorts before or
/// with its own.
pub open spec fn insert_by_name(sorted: Seq<UserView>, u: UserView) -> Seq<UserView>
    decreases sorted.len(),
{
    if sorted.len() == 0 {
        seq![u]
    } else if text_le(sorted.last().username, u.username) {
        sorted.push(u)
    } else {
        insert_by_name(sorted.drop_last(), u).push(sorted.last())
    }
}

/// `users` sorted by name; users with the same name keep their order.
pub open spec fn sort_by_name(users: Seq<UserView>) -> Seq<UserView>
    decreases users.len(),
{
    if users.len() == 0 {
        seq![]
    } else {
        insert_by_name(sort_by_name(users.drop_last()), users.last())
    }
}

proof fn lemma_insert_at(s: Seq<UserView>, u: UserView, k: int)
    requires
        0 <= k <= s.len(),
        k == 0 || text_le(s[k - 1].username, u.username),
        forall|j: int| k <= j < s.len() ==> !text_le(#[trigger] s[j].username, u.username),
    ensures
        insert_by_name(s, u) == s.take(k).push(u) + s.skip(k),
    decreases s.len() - k,
{
    if s.len() == 0 {
        assert(s.take(k).push(u) + s.skip(k) =~= seq![u]);
    } else if text_le(s.last().username, u.username) {
        assert(k == s.len());
        assert(s.take(k).push(u) + s.skip(k) =~= s.push(u));
    } else {
        lemma_insert_at(s.drop_last(), u, k);
        assert(s.drop_last().take(k) =~= s.take(k));
        assert((s.take(k).push(u) + s.drop_last().skip(k)).push(s.last()) =~= s.take(k).push(u)
            + s.skip(k));
    }
}

/// The users offered on the login screen for the accounts of the password
/// database: the human accounts, sorted by user name.
pub fn list_users(entries: &[PasswdEntry], uid_min: u32) -> (r: Vec<User>)
    ensures
        users_view(r@) == sort_by_name(human_users(entries_view(entries@), uid_min)),
{
    let ghost ev = entries_view(entries@);
    let mut users: Vec<User> = Vec::new();
    let mut i: usize = 0;
    while i < entries.len()
        invariant
            i <= entries.len(),
            ev == entries_view(entries@),
            users_view(users@) == sort_by_name(human_users(ev.take(i as int), uid_min)),
        decreases entries.len() - i,
    {
        assert(ev.take(i + 1).drop_last() =~= ev.take(i as int));
        assert(ev.take(i + 1).last() == entries@[i as int]@);
        let entry = &entries[i];
        if is_human(entry, uid_min) {
            let user = User {
                username: entry.username.clone(),
                display_name: display_name(entry),
                uid: entry.uid,
                avatar: None,
            };
            let ghost sorted = users_view(users@);
            let name = chars_of(user.username.as_str());
            let mut k = users.len();
            while k > 0 && !chars_le(chars_of(users[k - 1].username.as_str()).as_slice(), name.as_slice())
                invariant
                    k <= users.len(),
                    sorted == users_view(users@),
                    name@ == user.username@,
                    forall|j: int| k <= j < users.len() ==> !text_le(
                        #[trigger] sorted[j].username,
                        name@,
                    ),
                decreases k,
            {
                k -= 1;
            }
            proof {
                assert(k == 0 || text_le(sorted[k - 1].username, name@));
                lemma_insert_at(sorted, user@, k as int);
            }
            let ghost added = user@;
            users.insert(k, user);
            assert(users_view(users@) =~= sorted.take(k as int).push(added) + sorted.skip(k as int));
            proof {
                let before = human_users(ev.take(i as int), uid_min);
                assert(added == user_of(ev[i as int]));
                assert(human_users(ev.take(i + 1), uid_min) == before.push(added));
                assert(before.push(added).drop_last() =~= before);
                assert(sort_by_name(before.push(added)) == insert_by_name(sort_by_name(before), added));
            }
        } else {
            assert(human_users(ev.take(i + 1), uid_min) == human_users(ev.take(i as int), uid_min));
        }
        i += 1;
    }
    assert(ev.take(entries.len() as int) =~= ev);
    users
}


/// Users in order of their names.
pub open spec fn sorted_by_name(s: Seq<UserView>) -> bool {
    forall|i: int, j: int| 0 <= i < j < s.len() ==> text_le(#[trigger] s[i].username, #[trigger] s[j].username)
}

proof fn lemma_insert_by_name(s: Seq<UserView>, u: UserView)
    requires
        sorted_by_name(s),
    ensures
        sorted_by_name(insert_by_name(s, u)),
        insert_by_name(s, u).to_multiset() == s.to_multiset().insert(u),
    decreases s.len(),
{
    broadcast use vstd::seq_lib::group_to_multiset_ensures;

    if s.len() == 0 {
        assert(seq![u] =~= Seq::<UserView>::empty().push(u));
    } else if text_le(s.last().username, u.username) {
        let r = s.push(u);
        assert forall|i: int, j: int| 0 <= i < j < r.len() implies text_le(
            #[trigger] r[i].username,
            #[trigger] r[j].username,
        ) by {
            if j == s.len() {
                if i < s.len() - 1 {
                    lemma_text_le_transitive(s[i].username, s.last().username, u.username);
                }
            } else {
                assert(r[i] == s[i] && r[j] == s[j]);
            }
        }
    } else {
        let front = s.drop_last();
        let x = s.last();
        assert(sorted_by_name(front));
        lemma_insert_by_name(front, u);
        let inner = insert_by_name(front, u);
        let r = inner.push(x);
        lemma_text_le_total(x.username, u.username);
        assert(s =~= front.push(x));
        assert forall|i: int, j: int| 0 <= i < j < r.len() implies text_le(
            #[trigger] r[i].username,
            #[trigger] r[j].username,
        ) by {
            if j == inner.len() {
                let y = inner[i];
                assert(inner.to_multiset().count(y) > 0);
                if y != u {
                    assert(front.to_multiset().count(y) > 0);
                    assert(front.contains(y));
                    let k = choose|k: int| 0 <= k < front.len() && front[k] == y;
                    assert(s[k] == y);
                    assert(s[s.len() - 1] == x);
                }
            } else {
                assert(r[i] == inner[i] && r[j] == inner[j]);
            }
        }
    }
}

/// The users come out in order of their names, and they are the users
/// that were given: sorting neither drops nor adds one.
pub proof fn lemma_sort_by_name(users: Seq<UserView>)
    ensures
        sorted_by_name(sort_by_name(users)),
        sort_by_name(users).to_multiset() == users.to_multiset(),
    decreases users.len(),
{
    broadcast use vstd::seq_lib::group_to_multiset_ensures;

    if users.len() == 0 {
        assert(sort_by_name(users) =~= users);
    } else {
        lemma_sort_by_name(users.drop_last());
        lemma_insert_by_name(sort_by_name(users.drop_last()), users.last());
        assert(users =~= users.drop_last().push(users.last()));
    }
}

/// An account whose shell's file name is `nologin`, `false`, `sync`,
/// `shutdown` or `halt` is never a person who logs in, whatever its user id.
pub proof fn lemma_nologin_shell_is_not_human(entry: PasswdEntryView, uid_min: u32)
    requires
        split_on(entry.shell, '/').last() == "nologin"@ || split_on(entry.shell, '/').last()
            == "false"@ || split_on(entry.shell, '/').last() == "sync"@ || split_on(
            entry.shell,
            '/',
        ).last() == "shutdown"@ || split_on(entry.shell, '/').last() == "halt"@,
    ensures
        !human(entry, uid_min),
{
}

proof fn lemma_human_users_come_from(entries: Seq<PasswdEntryView>, uid_min: u32)
    ensures
        forall|k: int| 0 <= k < human_users(entries, uid_min).len() ==> exists|j: int|
            0 <= j < entries.len() && human(#[trigger] entries[j], uid_min)
                && #[trigger] human_users(entries, uid_min)[k] == user_of(entries[j]),
    decreases entries.len(),
{
    if entries.len() > 0 {
        let front = entries.drop_last();
        lemma_human_users_come_from(front, uid_min);
        let hu = human_users(entries, uid_min);
        let hf = human_users(front, uid_min);
        assert forall|k: int| 0 <= k < hu.len() implies exists|j: int|
            0 <= j < entries.len() && human(#[trigger] entries[j], uid_min)
                && #[trigger] hu[k] == user_of(entries[j]) by {
            if k < hf.len() {
                assert(hu[k] == hf[k]);
                let j = choose|j: int| 0 <= j < front.len() && human(#[trigger] front[j], uid_min)
                    && #[trigger] hf[k] == user_of(front[j]);
                assert(entries[j] == front[j]);
            } else {
                let j = entries.len() - 1;
                assert(entries[j] == entries.last());
            }
        }
    }
}

/// Every user offered on the login screen comes from an account of the
/// database with the same name and user id, a user id of at least
/// `uid_min`, and a shell whose file name is none of `nologin`, `false`,
/// `sync`, `shutdown` and `halt`.
pub proof fn lemma_listed_users_can_log_in(entries: Seq<PasswdEntryView>, uid_min: u32, i: int)
    requires
        0 <= i < sort_by_name(human_users(entries, uid_min)).len(),
    ensures
        exists|j: int|
            0 <= j < entries.len() && (#[trigger] entries[j]).username == sort_by_name(
                human_users(entries, uid_min),
            )[i].username && entries[j].uid == sort_by_name(human_users(entries, uid_min))[i].uid
                && entries[j].uid >= uid_min && entries[j].shell.len() > 0 && split_on(
                entries[j].shell,
                '/',
            ).last() != "nologin"@ && split_on(entries[j].shell, '/').last() != "false"@
                && split_on(entries[j].shell, '/').last() != "sync"@ && split_on(
                entries[j].shell,
                '/',
            ).last() != "shutdown"@ && split_on(entries[j].shell, '/').last() != "halt"@,
{
    broadcast use vstd::seq_lib::group_to_multiset_ensures;

    let hu = human_users(entries, uid_min);
    let r = sort_by_name(hu);
    lemma_sort_by_name(hu);
    let u = r[i];
    assert(r.to_multiset().count(u) > 0);
    assert(hu.to_multiset().count(u) > 0);
    assert(hu.contains(u));
    let k = choose|k: int| 0 <= k < hu.len() && hu[k] == u;
    lemma_human_users_come_from(entries, uid_min);
    assert(hu[k] == u);
    let j = choose|j: int| 0 <= j < entries.len() && human(#[trigger] entries[j], uid_min)
        && #[trigger] hu[k] == user_of(entries[j]);
    assert(human(entries[j], uid_min));
}

/// A line of colon-separated fields, none holding a `:`, reads as an
/// account exactly when it has at least seven fields: its user name is the
/// first field, its user id the number written in the third, its GECOS
/// entry the fifth field and its shell the seventh.
pub proof fn lemma_passwd_fields_read_back(fields: Seq<Seq<char>>, uid: u32)
    requires
        fields.len() >= 1,
        forall|k: int| 0 <= k < fields.len() ==> !(#[trigger] fields[k]).contains(':'),
    ensures
        fields.len() < 7 ==> passwd_line(join_with(fields, ':')) is None,
        (fields.len() >= 7 && fields[2] == decimal(uid as nat)) ==> passwd_line(join_with(fields, ':'))
            == Some(
            PasswdEntryView { username: fields[0], uid, gecos: fields[4], shell: fields[6] },
        ),
{
    lemma_join_splits_back(fields, ':');
    lemma_decimal_reads_back(uid);
}

/// The name shown for an account is its GECOS entry up to the first comma,
/// trimmed, whatever follows the comma; where that part is blank, the user
/// name is shown.
pub proof fn lemma_shown_name_is_first_gecos_field(entry: PasswdEntryView, first: Seq<char>, rest: Seq<char>)
    requires
        !first.contains(','),
        entry.gecos == first.push(',') + rest || entry.gecos == first,
    ensures
        shown_name(entry) == (if trim(first).len() == 0 { entry.username } else { trim(first) }),
{
    lemma_split_on_whole(first, ',');
    if entry.gecos == first.push(',') + rest {
        lemma_split_on_at_sep(first, rest, ',');
        assert((split_on(first, ',') + split_on(rest, ','))[0] == first);
    }
}

/// The `UID_MIN` setting is read from the first line that sets it to a
/// number: lines after it do not change it, and where the first lines set
/// none, the lines after them decide.
pub proof fn lemma_first_uid_min_wins(first: Seq<Seq<char>>, rest: Seq<Seq<char>>)
    ensures
        first_uid_min(first) is Some ==> first_uid_min(first + rest) == first_uid_min(first),
        first_uid_min(first) is None ==> first_uid_min(first + rest) == first_uid_min(rest),
    decreases first.len(),
{
    if first.len() == 0 {
        assert(first + rest =~= rest);
    } else {
        assert((first + rest)[0] == first[0]);
        assert((first + rest).drop_first() =~= first.drop_first() + rest);
        lemma_first_uid_min_wins(first.drop_first(), rest);
    }
}

/// A line `UID_MIN`, then any white space, then a number written in decimal
/// sets the lowest user id of login users to that number.
pub proof fn lemma_uid_min_line_reads_the_number(gap: Seq<char>, n: u32)
    requires
        forall|i: int| 0 <= i < gap.len() ==> is_white(#[trigger] gap[i]),
    ensures
        uid_min_line("UID_MIN"@ + gap + decimal(n as nat)) == Some(n),
{
    reveal_strlit("UID_MIN");
    let key = "UID_MIN"@;
    let digits = decimal(n as nat);
    lemma_decimal_digits(n as nat);
    lemma_decimal_reads_back(n);
    let line = key + gap + digits;
    assert(!is_white(digits[0]) && !is_white(digits.last())) by {
        assert('0' <= digits[0] <= '9');
        assert('0' <= digits[digits.len() - 1] <= '9');
    }
    assert(line[0] == 'U');
    assert(line.last() == digits.last());
    lemma_trim_drops_surrounding_white(Seq::<char>::empty(), line, Seq::<char>::empty());
    assert(Seq::<char>::empty() + line + Seq::<char>::empty() =~= line);
    assert(line.take(7) =~= key);
    assert(line.skip(7) =~= gap + digits);
    lemma_trim_drops_surrounding_white(gap, digits, Seq::<char>::empty());
    assert(gap + digits + Seq::<char>::empty() =~= gap + digits);
}

} // verus!
