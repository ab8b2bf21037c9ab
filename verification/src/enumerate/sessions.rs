//! Wayland sessions, from the desktop entries of the session directories.

use vstd::prelude::*;

use crate::exec::{exec_args, parse_exec, ExecError};
use crate::greetd::strings_view;
use crate::text::{
    is_white, lemma_join_splits_back, lemma_split_once_at_first, lemma_text_le_antisymmetric,
    lemma_trim_drops_surrounding_white, lemma_text_le_total, lemma_text_le_transitive,
    char_vecs_view, chars_eq, chars_le, chars_of, concat_chars, has_char, join_chars, join_with,
    keep_non_empty, lines, non_empty, position_of, slice_chars, split, split_on, split_once,
    string_from, text_le, text_lines, trim, trimmed,
};

verus! {

/// The data directories searched when `XDG_DATA_DIRS` is empty.
pub const DEFAULT_DATA_DIRS: &'static str = "/usr/local/share:/usr/share";

/// A session offered on the login screen.
#[derive(Debug, Clone, PartialEq, Eq)]
pub struct Session {
    pub id: String,
    pub name: String,
    pub argv: Vec<String>,
    pub desktop_names: Vec<String>,
    pub env: Vec<String>,
}

/// The abstract value of a [`Session`].
pub struct SessionView {
    pub id: Seq<char>,
    pub name: Seq<char>,
    pub argv: Seq<Seq<char>>,
    pub desktop_names: Seq<Seq<char>>,
    pub env: Seq<Seq<char>>,
}

impl View for Session {
    type V = SessionView;

    open spec fn view(&self) -> SessionView {
        SessionView {
            id: self.id@,
            name: self.name@,
            argv: strings_view(self.argv@),
            desktop_names: strings_view(self.desktop_names@),
            env: strings_view(self.env@),
        }
    }
}

/// A directory path joined with a relative name, as `Path::join` joins
/// them: with a `/` between unless the directory already ends in one.
pub open spec fn join_path(dir: Seq<char>, name: Seq<char>) -> Seq<char> {
    if dir.len() > 0 && dir.last() == '/' {
        dir + name
    } else {
        dir.push('/') + name
    }
}

/// The session directory under each data directory of a colon-separated
/// list; an empty list stands for [`DEFAULT_DATA_DIRS`], and empty entries
/// are skipped.
pub open spec fn session_dirs_of(data_dirs: Seq<char>) -> Seq<Seq<char>> {
    let list = if data_dirs.len() == 0 { DEFAULT_DATA_DIRS@ } else { data_dirs };
    non_empty(split_on(list, ':')).map_values(|d: Seq<char>| join_path(d, "wayland-sessions"@))
}

/// The directories that hold Wayland session entries, for the value of
/// `XDG_DATA_DIRS`.
pub fn session_dirs(data_dirs: &str) -> (r: Vec<String>)
    ensures
        strings_view(r@) == session_dirs_of(data_dirs@),
{
    let given = chars_of(data_dirs);
    let list = if given.len() == 0 { chars_of(DEFAULT_DATA_DIRS) } else { given };
    let sub = chars_of("wayland-sessions");
    let parts = split(list.as_slice(), ':');
    let dirs = keep_non_empty(&parts);
    let ghost dv = char_vecs_view(dirs@);
    let ghost want = dv.map_values(|d: Seq<char>| join_path(d, "wayland-sessions"@));
    let mut out: Vec<String> = Vec::new();
    let mut i: usize = 0;
    while i < dirs.len()
        invariant
            i <= dirs.len(),
            dv == char_vecs_view(dirs@),
            want == dv.map_values(|d: Seq<char>| join_path(d, "wayland-sessions"@)),
            sub@ == "wayland-sessions"@,
            strings_view(out@) =~= want.take(i as int),
        decreases dirs.len() - i,
    {
        let dir = dirs[i].as_slice();
        let joined = if dir.len() > 0 && dir[dir.len() - 1] == '/' {
            concat_chars(dir, sub.as_slice())
        } else {
            let mut with_sep = slice_chars(dir, 0, dir.len());
            with_sep.push('/');
            assert(with_sep@ =~= dir@.push('/'));
            concat_chars(with_sep.as_slice(), sub.as_slice())
        };
        assert(joined@ == want[i as int]);
        out.push(string_from(joined.as_slice()));
        assert(want.take(i + 1) =~= want.take(i as int).push(want[i as int]));
        i += 1;
    }
    assert(want.take(dirs.len() as int) =~= want);
    out
}

/// What a desktop entry has said so far, line by line.
pub struct EntryScan {
    pub in_entry: bool,
    pub name: Option<Seq<char>>,
    pub exec_line: Option<Seq<char>>,
    pub kind: Option<Seq<char>>,
    pub desktop_names: Seq<Seq<char>>,
    pub hidden: bool,
    pub no_display: bool,
}

pub open spec fn entry_start() -> EntryScan {
    EntryScan {
        in_entry: false,
        name: None,
        exec_line: None,
        kind: None,
        desktop_names: seq![],
        hidden: false,
        no_display: false,
    }
}

/// Whether a value spells `true`, in any mix of upper and lower case.
pub open spec fn says_true(v: Seq<char>) -> bool {
    &&& v.len() == 4
    &&& (v[0] == 't' || v[0] == 'T')
    &&& (v[1] == 'r' || v[1] == 'R')
    &&& (v[2] == 'u' || v[2] == 'U')
    &&& (v[3] == 'e' || v[3] == 'E')
}

/// What one line adds to a desktop entry. Blank lines and comments add
/// nothing; a group header says whether the lines below belong to the
/// `[Desktop Entry]` group; within it, `key=value` lines set the keys that
/// matter, and localized keys (`Name[de]`) are ignored.
pub open spec fn scan_entry_line(st: EntryScan, raw: Seq<char>) -> EntryScan {
    let line = trim(raw);
    if line.len() == 0 || line[0] == '#' {
        st
    } else if line[0] == '[' {
        EntryScan { in_entry: line == "[Desktop Entry]"@, ..st }
    } else if !st.in_entry {
        st
    } else {
        match split_once(line, '=') {
            None => st,
            Some((k, v)) => {
                let key = trim(k);
                let value = trim(v);
                if key.contains('[') {
                    st
                } else if key == "Name"@ {
                    EntryScan { name: Some(value), ..st }
                } else if key == "Exec"@ {
                    EntryScan { exec_line: Some(value), ..st }
                } else if key == "Type"@ {
                    EntryScan { kind: Some(value), ..st }
                } else if key == "DesktopNames"@ {
                    EntryScan { desktop_names: non_empty(split_on(value, ';')), ..st }
                } else if key == "Hidden"@ {
                    EntryScan { hidden: says_true(value), ..st }
                } else if key == "NoDisplay"@ {
                    EntryScan { no_display: says_true(value), ..st }
                } else {
                    st
                }
            },
        }
    }
}

/// What the lines of a desktop entry say.
pub open spec fn scan_entry(ls: Seq<Seq<char>>) -> EntryScan
    decreases ls.len(),
{
    if ls.len() == 0 {
        entry_start()
    } else {
        scan_entry_line(scan_entry(ls.drop_last()), ls.last())
    }
}

/// The environment a session starts with: a Wayland session whose desktop
/// is its first desktop name (or its id), and whose current desktops are
/// all its desktop names (or its id).
pub open spec fn session_env_of(id: Seq<char>, desktop_names: Seq<Seq<char>>) -> Seq<Seq<char>> {
    let primary = if desktop_names.len() > 0 { desktop_names[0] } else { id };
    let current = if desktop_names.len() == 0 { id } else { join_with(desktop_names, ':') };
    seq![
        "XDG_SESSION_TYPE=wayland"@,
        "XDG_SESSION_DESKTOP="@ + primary,
        "XDG_CURRENT_DESKTOP="@ + current,
    ]
}

/// The session that a desktop entry describes: none if it is hidden, not an
/// application, has no name or no `Exec` line, or its `Exec` line does not
/// split into arguments.
pub open spec fn desktop_entry(id: Seq<char>, content: Seq<char>) -> Option<SessionView> {
    let st = scan_entry(lines(content));
    if st.hidden || st.no_display {
        None
    } else if st.kind matches Some(k) && k != "Application"@ {
        None
    } else {
        match (st.name, st.exec_line) {
            (Some(name), Some(exec)) => match exec_args(exec) {
                Ok(argv) => Some(
                    SessionView {
                        id,
                        name,
                        argv,
                        desktop_names: st.desktop_names,
                        env: session_env_of(id, st.desktop_names),
                    },
                ),
                Err(_) => None,
            },
            _ => None,
        }
    }
}

struct EntryFields {
    in_entry: bool,
    name: Option<Vec<char>>,
    exec_line: Option<Vec<char>>,
    kind: Option<Vec<char>>,
    desktop_names: Vec<Vec<char>>,
    hidden: bool,
    no_display: bool,
}

spec fn opt_chars(o: Option<Vec<char>>) -> Option<Seq<char>> {
    match o {
        Some(v) => Some(v@),
        None => None,
    }
}

impl View for EntryFields {
    type V = EntryScan;

    closed spec fn view(&self) -> EntryScan {
        EntryScan {
            in_entry: self.in_entry,
            name: opt_chars(self.name),
            exec_line: opt_chars(self.exec_line),
            kind: opt_chars(self.kind),
            desktop_names: char_vecs_view(self.desktop_names@),
            hidden: self.hidden,
            no_display: self.no_display,
        }
    }
}

fn is_true_value(v: &[char]) -> (r: bool)
    ensures
        r == says_true(v@),
{
    v.len() == 4 && (v[0] == 't' || v[0] == 'T') && (v[1] == 'r' || v[1] == 'R') && (v[2] == 'u'
        || v[2] == 'U') && (v[3] == 'e' || v[3] == 'E')
}

fn is_key(key: &[char], name: &str) -> (r: bool)
    ensures
        r == (key@ == name@),
{
    let n = chars_of(name);
    chars_eq(key, n.as_slice())
}

fn read_entry_line(fields: &mut EntryFields, raw: &[char])
    ensures
        final(fields)@ == scan_entry_line(old(fields)@, raw@),
{
    let line = trimmed(raw);
    if line.len() == 0 || line[0] == '#' {
        return;
    }
    if line[0] == '[' {
        fields.in_entry = is_key(line.as_slice(), "[Desktop Entry]");
        return;
    }
    if !fields.in_entry {
        return;
    }
    let at = match position_of(line.as_slice(), '=') {
        Some(at) => at,
        None => return,
    };
    let key = trimmed(slice_chars(line.as_slice(), 0, at).as_slice());
    let value = trimmed(slice_chars(line.as_slice(), at + 1, line.len()).as_slice());
    proof {
        assert(line@.subrange(0, at as int) =~= line@.take(at as int));
        assert(line@.subrange(at + 1, line.len() as int) =~= line@.skip(at + 1));
    }
    if has_char(key.as_slice(), '[') {
        return;
    }
    if is_key(key.as_slice(), "Name") {
        fields.name = Some(value);
    } else if is_key(key.as_slice(), "Exec") {
        fields.exec_line = Some(value);
    } else if is_key(key.as_slice(), "Type") {
        fields.kind = Some(value);
    } else if is_key(key.as_slice(), "DesktopNames") {
        let pieces = split(value.as_slice(), ';');
        fields.desktop_names = keep_non_empty(&pieces);
    } else if is_key(key.as_slice(), "Hidden") {
        fields.hidden = is_true_value(value.as_slice());
    } else if is_key(key.as_slice(), "NoDisplay") {
        fields.no_display = is_true_value(value.as_slice());
    }
}

fn strings_of(parts: &Vec<Vec<char>>) -> (r: Vec<String>)
    ensures
        strings_view(r@) == char_vecs_view(parts@),
{
    let mut r: Vec<String> = Vec::new();
    let mut i: usize = 0;
    while i < parts.len()
        invariant
            i <= parts.len(),
            strings_view(r@) =~= char_vecs_view(parts@).take(i as int),
        decreases parts.len() - i,
    {
        r.push(string_from(parts[i].as_slice()));
        assert(char_vecs_view(parts@).take(i + 1) =~= char_vecs_view(parts@).take(i as int).push(
            parts@[i as int]@,
        ));
        i += 1;
    }
    assert(char_vecs_view(parts@).take(parts.len() as int) =~= char_vecs_view(parts@));
    r
}

fn session_env(id: &[char], desktop_names: &Vec<Vec<char>>) -> (r: Vec<String>)
    ensures
        strings_view(r@) == session_env_of(id@, char_vecs_view(desktop_names@)),
{
    let primary = if desktop_names.len() > 0 {
        slice_chars(desktop_names[0].as_slice(), 0, desktop_names[0].len())
    } else {
        slice_chars(id, 0, id.len())
    };
    let current = if desktop_names.len() == 0 {
        slice_chars(id, 0, id.len())
    } else {
        join_chars(desktop_names, ':')
    };
    proof {
        assert(id@.subrange(0, id@.len() as int) =~= id@);
        if desktop_names.len() > 0 {
            assert(desktop_names@[0]@.subrange(0, desktop_names@[0]@.len() as int) =~= desktop_names@[0]@);
        }
    }
    let session_type = chars_of("XDG_SESSION_TYPE=wayland");
    let desktop_key = chars_of("XDG_SESSION_DESKTOP=");
    let current_key = chars_of("XDG_CURRENT_DESKTOP=");
    let desktop = concat_chars(desktop_key.as_slice(), primary.as_slice());
    let currents = concat_chars(current_key.as_slice(), current.as_slice());
    let r = vec![
        string_from(session_type.as_slice()),
        string_from(desktop.as_slice()),
        string_from(currents.as_slice()),
    ];
    assert(strings_view(r@) =~= session_env_of(id@, char_vecs_view(desktop_names@)));
    r
}

/// Reads the session that the desktop entry `content`, stored under the
/// file name `id`, describes.
pub fn parse_desktop_entry(id: &str, content: &str) -> (r: Option<Session>)
    ensures
        match r {
            Some(s) => desktop_entry(id@, content@) == Some(s@),
            None => desktop_entry(id@, content@) is None,
        },
{
    let text = chars_of(content);
    let ls = text_lines(text.as_slice());
    let ghost lv = char_vecs_view(ls@);
    let mut fields = EntryFields {
        in_entry: false,
        name: None,
        exec_line: None,
        kind: None,
        desktop_names: Vec::new(),
        hidden: false,
        no_display: false,
    };
    assert(char_vecs_view(fields.desktop_names@) =~= Seq::<Seq<char>>::empty());
    assert(fields@ == entry_start());
    let mut i: usize = 0;
    while i < ls.len()
        invariant
            i <= ls.len(),
            lv == char_vecs_view(ls@),
            fields@ == scan_entry(lv.take(i as int)),
        decreases ls.len() - i,
    {
        assert(lv.take(i + 1).drop_last() =~= lv.take(i as int));
        assert(lv.take(i + 1).last() == ls@[i as int]@);
        read_entry_line(&mut fields, ls[i].as_slice());
        i += 1;
    }
    assert(lv.take(ls.len() as int) =~= lv);
    if fields.hidden || fields.no_display {
        return None;
    }
    match &fields.kind {
        Some(kind) => {
            if !is_key(kind.as_slice(), "Application") {
                return None;
            }
        },
        None => {},
    }
    let name = match &fields.name {
        Some(name) => string_from(name.as_slice()),
        None => return None,
    };
    let exec_line = match &fields.exec_line {
        Some(exec) => string_from(exec.as_slice()),
        None => return None,
    };
    let argv = match parse_exec(exec_line.as_str()) {
        Ok(argv) => argv,
        Err(_) => return None,
    };
    let ids = chars_of(id);
    let env = session_env(ids.as_slice(), &fields.desktop_names);
    let desktop_names = strings_of(&fields.desktop_names);
    Some(Session { id: string_from(ids.as_slice()), name, argv, desktop_names, env })
}


pub open spec fn sessions_view(v: Seq<Session>) -> Seq<SessionView> {
    v.map_values(|s: Session| s@)
}

/// Whether session `a` is listed before or with `b`: by name, then by id.
pub open spec fn listed_before(a: SessionView, b: SessionView) -> bool {
    (text_le(a.name, b.name) && a.name != b.name) || (a.name == b.name && text_le(a.id, b.id))
}

/// `sorted` with `s` placed after every session listed before or with it.
pub open spec fn insert_session(sorted: Seq<SessionView>, s: SessionView) -> Seq<SessionView>
    decreases sorted.len(),
{
    if sorted.len() == 0 {
        seq![s]
    } else if listed_before(sorted.last(), s) {
        sorted.push(s)
    } else {
        insert_session(sorted.drop_last(), s).push(sorted.last())
    }
}

/// The sessions sorted by name and id; equal ones keep their order.
pub open spec fn sort_sessions(sessions: Seq<SessionView>) -> Seq<SessionView>
    decreases sessions.len(),
{
    if sessions.len() == 0 {
        seq![]
    } else {
        insert_session(sort_sessions(sessions.drop_last()), sessions.last())
    }
}

/// The sessions without those whose id equals that of the session kept
/// just before them.
pub open spec fn dedup_ids(sessions: Seq<SessionView>) -> Seq<SessionView>
    decreases sessions.len(),
{
    if sessions.len() == 0 {
        seq![]
    } else {
        let kept = dedup_ids(sessions.drop_last());
        if kept.len() > 0 && kept.last().id == sessions.last().id {
            kept
        } else {
            kept.push(sessions.last())
        }
    }
}

proof fn lemma_insert_session_at(s: Seq<SessionView>, x: SessionView, k: int)
    requires
        0 <= k <= s.len(),
        k == 0 || listed_before(s[k - 1], x),
        forall|j: int| k <= j < s.len() ==> !listed_before(#[trigger] s[j], x),
    ensures
        insert_session(s, x) == s.take(k).push(x) + s.skip(k),
    decreases s.len() - k,
{
    if s.len() == 0 {
        assert(s.take(k).push(x) + s.skip(k) =~= seq![x]);
    } else if listed_before(s.last(), x) {
        assert(k == s.len());
        assert(s.take(k).push(x) + s.skip(k) =~= s.push(x));
    } else {
        lemma_insert_session_at(s.drop_last(), x, k);
        assert(s.drop_last().take(k) =~= s.take(k));
        assert((s.take(k).push(x) + s.drop_last().skip(k)).push(s.last()) =~= s.take(k).push(x)
            + s.skip(k));
    }
}

fn session_listed_before(a: &Session, b: &Session) -> (r: bool)
    ensures
        r == listed_before(a@, b@),
{
    let an = chars_of(a.name.as_str());
    let bn = chars_of(b.name.as_str());
    if chars_eq(an.as_slice(), bn.as_slice()) {
        let ai = chars_of(a.id.as_str());
        let bi = chars_of(b.id.as_str());
        chars_le(ai.as_slice(), bi.as_slice())
    } else {
        chars_le(an.as_slice(), bn.as_slice())
    }
}

/// The sessions found in the session directories as the login screen lists
/// them: sorted by name and then id, with a session dropped when the one
/// listed just before it has the same id.
pub fn order_sessions(sessions: Vec<Session>) -> (r: Vec<Session>)
    ensures
        sessions_view(r@) == dedup_ids(sort_sessions(sessions_view(sessions@))),
{
    let ghost all = sessions_view(sessions@);
    let mut rest = sessions;
    let mut sorted: Vec<Session> = Vec::new();
    let ghost mut i: int = 0;
    while rest.len() > 0
        invariant
            0 <= i <= all.len(),
            sessions_view(rest@) == all.skip(i),
            sessions_view(sorted@) == sort_sessions(all.take(i)),
        decreases rest.len(),
    {
        assert(sessions_view(rest@).len() == rest.len());
        assert(i < all.len());
        assert(all.take(i + 1).drop_last() =~= all.take(i));
        assert(sessions_view(rest@)[0] == rest@[0]@);
        assert(all.skip(i)[0] == all[i]);
        let ghost prev = rest@;
        let item = rest.remove(0);
        assert(item@ == all[i]);
        assert(all.take(i + 1).last() == all[i]);
        assert(rest@ =~= prev.drop_first());
        assert(sessions_view(rest@) =~= all.skip(i + 1)) by {
            assert forall|k: int| 0 <= k < rest.len() implies sessions_view(rest@)[k] == all.skip(i + 1)[k] by {
                assert(sessions_view(prev)[k + 1] == prev[k + 1]@);
            }
        }
        let ghost before = sessions_view(sorted@);
        let mut k = sorted.len();
        while k > 0 && !session_listed_before(&sorted[k - 1], &item)
            invariant
                k <= sorted.len(),
                before == sessions_view(sorted@),
                forall|j: int| k <= j < sorted.len() ==> !listed_before(#[trigger] before[j], item@),
            decreases k,
        {
            k -= 1;
        }
        proof {
            lemma_insert_session_at(before, item@, k as int);
        }
        let ghost added = item@;
        sorted.insert(k, item);
        assert(sessions_view(sorted@) =~= before.take(k as int).push(added) + before.skip(k as int));
        proof {
            i = i + 1;
        }
    }
    assert(all.take(i) =~= all);
    let ghost ordered = sessions_view(sorted@);
    let mut kept: Vec<Session> = Vec::new();
    let ghost mut j: int = 0;
    while sorted.len() > 0
        invariant
            0 <= j <= ordered.len(),
            sessions_view(sorted@) == ordered.skip(j),
            sessions_view(kept@) == dedup_ids(ordered.take(j)),
        decreases sorted.len(),
    {
        assert(sessions_view(sorted@).len() == sorted.len());
        assert(j < ordered.len());
        assert(ordered.take(j + 1).drop_last() =~= ordered.take(j));
        assert(sessions_view(sorted@)[0] == sorted@[0]@);
        assert(ordered.skip(j)[0] == ordered[j]);
        let ghost prev = sorted@;
        let item = sorted.remove(0);
        assert(item@ == ordered[j]);
        assert(ordered.take(j + 1).last() == ordered[j]);
        assert(sorted@ =~= prev.drop_first());
        assert(sessions_view(sorted@) =~= ordered.skip(j + 1)) by {
            assert forall|k: int| 0 <= k < sorted.len() implies sessions_view(sorted@)[k] == ordered.skip(j + 1)[k] by {
                assert(sessions_view(prev)[k + 1] == prev[k + 1]@);
            }
        }
        let same = kept.len() > 0 && kept[kept.len() - 1].id == item.id;
        if !same {
            let ghost added = item@;
            kept.push(item);
            assert(sessions_view(kept@) =~= dedup_ids(ordered.take(j)).push(added));
        }
        proof {
            j = j + 1;
        }
    }
    assert(ordered.take(j) =~= ordered);
    kept
}


proof fn lemma_listed_before_total(a: SessionView, b: SessionView)
    ensures
        listed_before(a, b) || listed_before(b, a),
{
    lemma_text_le_total(a.name, b.name);
    lemma_text_le_total(a.id, b.id);
}

proof fn lemma_listed_before_transitive(a: SessionView, b: SessionView, c: SessionView)
    requires
        listed_before(a, b),
        listed_before(b, c),
    ensures
        listed_before(a, c),
{
    if a.name == b.name && b.name == c.name {
        lemma_text_le_transitive(a.id, b.id, c.id);
    } else if a.name != b.name && b.name != c.name {
        lemma_text_le_transitive(a.name, b.name, c.name);
        if a.name == c.name {
            lemma_text_le_antisymmetric(a.name, b.name);
        }
    }
}

/// Sessions in listing order.
pub open spec fn listed_in_order(s: Seq<SessionView>) -> bool {
    forall|i: int, j: int| 0 <= i < j < s.len() ==> listed_before(#[trigger] s[i], #[trigger] s[j])
}

proof fn lemma_insert_session(s: Seq<SessionView>, x: SessionView)
    requires
        listed_in_order(s),
    ensures
        listed_in_order(insert_session(s, x)),
        insert_session(s, x).to_multiset() == s.to_multiset().insert(x),
    decreases s.len(),
{
    broadcast use vstd::seq_lib::group_to_multiset_ensures;

    if s.len() == 0 {
        assert(seq![x] =~= Seq::<SessionView>::empty().push(x));
    } else if listed_before(s.last(), x) {
        let r = s.push(x);
        assert forall|i: int, j: int| 0 <= i < j < r.len() implies listed_before(#[trigger] r[i], #[trigger] r[j]) by {
            if j == s.len() {
                if i < s.len() - 1 {
                    lemma_listed_before_transitive(s[i], s.last(), x);
                }
            } else {
                assert(r[i] == s[i] && r[j] == s[j]);
            }
        }
    } else {
        let front = s.drop_last();
        let y = s.last();
        assert(listed_in_order(front));
        lemma_insert_session(front, x);
        let inner = insert_session(front, x);
        let r = inner.push(y);
        lemma_listed_before_total(y, x);
        assert(s =~= front.push(y));
        assert forall|i: int, j: int| 0 <= i < j < r.len() implies listed_before(#[trigger] r[i], #[trigger] r[j]) by {
            if j == inner.len() {
                let z = inner[i];
                assert(inner.to_multiset().count(z) > 0);
                if z != x {
                    assert(front.to_multiset().count(z) > 0);
                    assert(front.contains(z));
                    let k = choose|k: int| 0 <= k < front.len() && front[k] == z;
                    assert(s[k] == z);
                    assert(s[s.len() - 1] == y);
                }
            } else {
                assert(r[i] == inner[i] && r[j] == inner[j]);
            }
        }
    }
}

proof fn lemma_sort_sessions(sessions: Seq<SessionView>)
    ensures
        listed_in_order(sort_sessions(sessions)),
        sort_sessions(sessions).to_multiset() == sessions.to_multiset(),
    decreases sessions.len(),
{
    broadcast use vstd::seq_lib::group_to_multiset_ensures;

    if sessions.len() == 0 {
        assert(sort_sessions(sessions) =~= sessions);
    } else {
        lemma_sort_sessions(sessions.drop_last());
        lemma_insert_session(sort_sessions(sessions.drop_last()), sessions.last());
        assert(sessions =~= sessions.drop_last().push(sessions.last()));
    }
}

proof fn lemma_dedup_ids(s: Seq<SessionView>)
    requires
        listed_in_order(s),
    ensures
        listed_in_order(dedup_ids(s)),
        forall|i: int| 0 <= i < dedup_ids(s).len() ==> s.contains(#[trigger] dedup_ids(s)[i]),
        forall|i: int| 0 < i < dedup_ids(s).len() ==> #[trigger] dedup_ids(s)[i].id != dedup_ids(s)[i - 1].id,
        s.len() > 0 ==> dedup_ids(s).len() > 0 && dedup_ids(s).last().id == s.last().id,
    decreases s.len(),
{
    if s.len() > 0 {
        let front = s.drop_last();
        let x = s.last();
        assert(listed_in_order(front));
        lemma_dedup_ids(front);
        let kept = dedup_ids(front);
        let d = dedup_ids(s);
        assert forall|i: int| 0 <= i < d.len() implies s.contains(#[trigger] d[i]) by {
            if i < kept.len() {
                assert(d[i] == kept[i]);
                let k = choose|k: int| 0 <= k < front.len() && front[k] == kept[i];
                assert(s[k] == kept[i]);
            } else {
                assert(d[i] == x);
                assert(s[s.len() - 1] == x);
            }
        }
        if !(kept.len() > 0 && kept.last().id == x.id) {
            assert forall|i: int, j: int| 0 <= i < j < d.len() implies listed_before(#[trigger] d[i], #[trigger] d[j]) by {
                if j == kept.len() {
                    let k = choose|k: int| 0 <= k < front.len() && front[k] == kept[i];
                    assert(s[k] == kept[i]);
                    assert(s[s.len() - 1] == x);
                } else {
                    assert(d[i] == kept[i] && d[j] == kept[j]);
                }
            }
        }
    }
}

/// The listed sessions are in order of name and then id, no session has the
/// same id as the one listed before it, and each listed session is one of
/// the sessions found.
pub proof fn lemma_listed_sessions_are_ordered(sessions: Seq<SessionView>)
    ensures
        listed_in_order(dedup_ids(sort_sessions(sessions))),
        forall|i: int|
            0 < i < dedup_ids(sort_sessions(sessions)).len() ==> #[trigger] dedup_ids(
                sort_sessions(sessions),
            )[i].id != dedup_ids(sort_sessions(sessions))[i - 1].id,
        forall|i: int|
            0 <= i < dedup_ids(sort_sessions(sessions)).len() ==> sessions.contains(
                #[trigger] dedup_ids(sort_sessions(sessions))[i],
            ),
{
    broadcast use vstd::seq_lib::group_to_multiset_ensures;

    lemma_sort_sessions(sessions);
    lemma_dedup_ids(sort_sessions(sessions));
    let sorted = sort_sessions(sessions);
    let d = dedup_ids(sorted);
    assert forall|i: int| 0 <= i < d.len() implies sessions.contains(#[trigger] d[i]) by {
        assert(sorted.contains(d[i]));
        assert(sorted.to_multiset().count(d[i]) > 0);
    }
}

/// Desktop names as a session carries them: none is empty, and none holds
/// the `;` that separates them in a desktop entry.
pub open spec fn proper_desktop_names(names: Seq<Seq<char>>) -> bool {
    forall|k: int| 0 <= k < names.len() ==> (#[trigger] names[k]).len() > 0 && !names[k].contains(';')
}

proof fn lemma_split_on_lacks_sep(s: Seq<char>, sep: char)
    ensures
        forall|k: int| 0 <= k < split_on(s, sep).len() ==> !(#[trigger] split_on(s, sep)[k]).contains(sep),
        split_on(s, sep).len() >= 1,
    decreases s.len(),
{
    if s.len() > 0 {
        let parts = split_on(s.drop_last(), sep);
        lemma_split_on_lacks_sep(s.drop_last(), sep);
        let r = split_on(s, sep);
        if s.last() != sep {
            let grown = parts.last().push(s.last());
            assert forall|k: int| 0 <= k < r.len() implies !(#[trigger] r[k]).contains(sep) by {
                if k == parts.len() - 1 {
                    assert(r[k] == grown);
                    if grown.contains(sep) {
                        let m = choose|m: int| 0 <= m < grown.len() && grown[m] == sep;
                        assert(m < parts.last().len());
                        assert(parts.last()[m] == sep);
                        assert(parts.last().contains(sep));
                        assert(!parts[parts.len() - 1].contains(sep));
                    }
                } else {
                    assert(r[k] == parts[k]);
                }
            }
        } else {
            assert forall|k: int| 0 <= k < r.len() implies !(#[trigger] r[k]).contains(sep) by {
                if k < parts.len() {
                    assert(r[k] == parts[k]);
                } else {
                    assert(r[k] =~= Seq::<char>::empty());
                }
            }
        }
    }
}

proof fn lemma_non_empty_pieces(parts: Seq<Seq<char>>, sep: char)
    requires
        forall|k: int| 0 <= k < parts.len() ==> !(#[trigger] parts[k]).contains(sep),
    ensures
        forall|k: int| 0 <= k < non_empty(parts).len() ==> (#[trigger] non_empty(parts)[k]).len() > 0
            && !non_empty(parts)[k].contains(sep),
    decreases parts.len(),
{
    if parts.len() > 0 {
        let front = parts.drop_last();
        assert forall|k: int| 0 <= k < front.len() implies !(#[trigger] front[k]).contains(sep) by {
            assert(front[k] == parts[k]);
        }
        lemma_non_empty_pieces(front, sep);
        let r = non_empty(parts);
        let f = non_empty(front);
        assert(!parts[parts.len() - 1].contains(sep));
        assert forall|k: int| 0 <= k < r.len() implies (#[trigger] r[k]).len() > 0 && !r[k].contains(
            sep,
        ) by {
            if k < f.len() {
                assert(r[k] == f[k]);
            }
        }
    }
}

proof fn lemma_scan_entry_names(ls: Seq<Seq<char>>)
    ensures
        proper_desktop_names(scan_entry(ls).desktop_names),
    decreases ls.len(),
{
    if ls.len() > 0 {
        lemma_scan_entry_names(ls.drop_last());
        let st = scan_entry(ls.drop_last());
        let line = trim(ls.last());
        if let Some((k, v)) = split_once(line, '=') {
            let value = trim(v);
            lemma_split_on_lacks_sep(value, ';');
            lemma_non_empty_pieces(split_on(value, ';'), ';');
        }
    }
}

/// Every desktop name of a session read from a desktop entry is non-empty
/// and free of `;`: a `DesktopNames` value with an empty piece, such as a
/// trailing `;`, adds no name for that piece.
pub proof fn lemma_entry_desktop_names_are_proper(id: Seq<char>, content: Seq<char>)
    ensures
        desktop_entry(id, content) matches Some(sv) ==> proper_desktop_names(sv.desktop_names),
{
    lemma_scan_entry_names(lines(content));
}

proof fn lemma_join_ends_with_last(parts: Seq<Seq<char>>, sep: char)
    requires
        parts.len() >= 1,
        parts.last().len() > 0,
    ensures
        join_with(parts, sep).len() > 0,
        join_with(parts, sep).last() == parts.last().last(),
{
    if parts.len() > 1 {
        let front = join_with(parts.drop_last(), sep).push(sep);
        assert((front + parts.last()).last() == parts.last().last());
    }
}

/// The environment a session starts with names a Wayland session; its
/// desktop is the first desktop name, or the id when there is none; and the
/// current desktops, for names that hold no `:`, are a value that splits on
/// `:` into exactly the desktop names and does not end in `:`.
pub proof fn lemma_session_env_lists_desktops(id: Seq<char>, names: Seq<Seq<char>>)
    requires
        forall|k: int| 0 <= k < names.len() ==> (#[trigger] names[k]).len() > 0 && !names[k].contains(':'),
    ensures
        session_env_of(id, names).len() == 3,
        session_env_of(id, names)[0] == "XDG_SESSION_TYPE=wayland"@,
        names.len() == 0 ==> session_env_of(id, names)[1] == "XDG_SESSION_DESKTOP="@ + id
            && session_env_of(id, names)[2] == "XDG_CURRENT_DESKTOP="@ + id,
        names.len() > 0 ==> session_env_of(id, names)[1] == "XDG_SESSION_DESKTOP="@ + names[0],
        names.len() > 0 ==> exists|value: Seq<char>|
            session_env_of(id, names)[2] == "XDG_CURRENT_DESKTOP="@ + value && #[trigger] split_on(
                value,
                ':',
            ) == names && value.last() != ':',
{
    if names.len() > 0 {
        let value = join_with(names, ':');
        lemma_join_splits_back(names, ':');
        assert(names.last() == names[names.len() - 1]);
        lemma_join_ends_with_last(names, ':');
        assert(names.last().last() != ':') by {
            let l = names[names.len() - 1];
            assert(l[l.len() - 1] == l.last());
            if l.last() == ':' {
                assert(l.contains(':'));
            }
        }
        assert(session_env_of(id, names)[2] == "XDG_CURRENT_DESKTOP="@ + value && split_on(value, ':')
            == names && value.last() != ':');
    }
}

/// A session read from a desktop entry keeps the entry's id, starts as a
/// Wayland session whose desktop is its first desktop name (or its id when
/// it has none), and, where no desktop name holds a `:`, lists as current
/// desktops a value that splits on `:` into exactly its desktop names.
pub proof fn lemma_entry_session_env(id: Seq<char>, content: Seq<char>)
    ensures
        desktop_entry(id, content) matches Some(sv) ==> {
            &&& sv.id == id
            &&& sv.env.len() == 3
            &&& sv.env[0] == "XDG_SESSION_TYPE=wayland"@
            &&& sv.desktop_names.len() == 0 ==> sv.env[1] == "XDG_SESSION_DESKTOP="@ + id
                && sv.env[2] == "XDG_CURRENT_DESKTOP="@ + id
            &&& sv.desktop_names.len() > 0 ==> sv.env[1] == "XDG_SESSION_DESKTOP="@
                + sv.desktop_names[0]
            &&& (sv.desktop_names.len() > 0 && forall|k: int|
                0 <= k < sv.desktop_names.len() ==> !(#[trigger] sv.desktop_names[k]).contains(':'))
                ==> exists|value: Seq<char>|
                sv.env[2] == "XDG_CURRENT_DESKTOP="@ + value && #[trigger] split_on(value, ':')
                    == sv.desktop_names && value.last() != ':'
        },
{
    lemma_scan_entry_names(lines(content));
    if let Some(sv) = desktop_entry(id, content) {
        let names = sv.desktop_names;
        if forall|k: int| 0 <= k < names.len() ==> !(#[trigger] names[k]).contains(':') {
            lemma_session_env_lists_desktops(id, names);
        } else {
            lemma_session_env_lists_desktops(id, Seq::<Seq<char>>::empty());
            assert(names.len() > 0);
        }
    }
}

proof fn lemma_dedup_ids_covers(s: Seq<SessionView>)
    ensures
        forall|i: int| 0 <= i < s.len() ==> exists|j: int|
            0 <= j < dedup_ids(s).len() && #[trigger] dedup_ids(s)[j].id == (#[trigger] s[i]).id,
    decreases s.len(),
{
    if s.len() > 0 {
        let front = s.drop_last();
        lemma_dedup_ids_covers(front);
        let kept = dedup_ids(front);
        let d = dedup_ids(s);
        assert forall|i: int| 0 <= i < s.len() implies exists|j: int|
            0 <= j < d.len() && #[trigger] d[j].id == (#[trigger] s[i]).id by {
            if i < front.len() {
                assert(front[i] == s[i]);
                let j = choose|j: int| 0 <= j < kept.len() && #[trigger] kept[j].id == (#[trigger] front[i]).id;
                assert(d[j] == kept[j]);
                assert(0 <= j < d.len() && d[j].id == s[i].id);
            } else if kept.len() > 0 && kept.last().id == s.last().id {
                let j = kept.len() - 1;
                assert(d =~= kept);
                assert(d[j] == kept.last());
                assert(s[i] == s.last());
                assert(0 <= j < d.len() && d[j].id == s[i].id);
            } else {
                let j = kept.len() as int;
                assert(d =~= kept.push(s.last()));
                assert(d[j] == s.last());
                assert(s[i] == s.last());
                assert(0 <= j < d.len() && d[j].id == s[i].id);
            }
        }
    }
}

/// No session found is lost but for a repeated id: for every session found,
/// the listing holds a session with its id.
pub proof fn lemma_listed_sessions_cover_found(sessions: Seq<SessionView>)
    ensures
        forall|i: int| 0 <= i < sessions.len() ==> exists|j: int|
            0 <= j < dedup_ids(sort_sessions(sessions)).len() && #[trigger] dedup_ids(
                sort_sessions(sessions),
            )[j].id == (#[trigger] sessions[i]).id,
{
    broadcast use vstd::seq_lib::group_to_multiset_ensures;

    lemma_sort_sessions(sessions);
    let sorted = sort_sessions(sessions);
    lemma_dedup_ids_covers(sorted);
    let d = dedup_ids(sorted);
    assert forall|i: int| 0 <= i < sessions.len() implies exists|j: int|
        0 <= j < d.len() && #[trigger] d[j].id == (#[trigger] sessions[i]).id by {
        assert(sessions.to_multiset().count(sessions[i]) > 0);
        assert(sorted.to_multiset().count(sessions[i]) > 0);
        assert(sorted.contains(sessions[i]));
        let k = choose|k: int| 0 <= k < sorted.len() && sorted[k] == sessions[i];
        let j = choose|j: int| 0 <= j < d.len() && #[trigger] d[j].id == (#[trigger] sorted[k]).id;
    }
}

proof fn lemma_key_value_line(key: Seq<char>, value: Seq<char>)
    requires
        key.len() > 0,
        !is_white(key[0]),
        !is_white(key.last()),
        !key.contains('='),
        value.len() > 0 ==> !is_white(value[0]) && !is_white(value.last()),
    ensures
        trim(key.push('=') + value) == key.push('=') + value,
        split_once(key.push('=') + value, '=') == Some((key, value)),
        trim(key) == key,
        trim(value) == value,
{
    let line = key.push('=') + value;
    let e = Seq::<char>::empty();
    assert(line[0] == key[0]);
    if value.len() > 0 {
        assert(line.last() == value.last());
    } else {
        assert(line.last() == '=');
    }
    lemma_trim_drops_surrounding_white(e, line, e);
    assert(e + line + e =~= line);
    lemma_trim_drops_surrounding_white(e, key, e);
    assert(e + key + e =~= key);
    lemma_trim_drops_surrounding_white(e, value, e);
    assert(e + value + e =~= value);
    lemma_split_once_at_first(key, value, '=');
}

/// Inside the `[Desktop Entry]` group, a `key=value` line sets the key it
/// names to its value, everything after the first `=` (a later `=`
/// included); the other keys keep what they had. `Hidden` and `NoDisplay`
/// are set by whether the value spells `true`, and `DesktopNames` to the
/// non-empty `;`-separated pieces of the value.
pub proof fn lemma_entry_lines_set_keys(st: EntryScan, value: Seq<char>)
    requires
        st.in_entry,
        value.len() > 0 ==> !is_white(value[0]) && !is_white(value.last()),
    ensures
        scan_entry_line(st, "Name="@ + value) == (EntryScan { name: Some(value), ..st }),
        scan_entry_line(st, "Exec="@ + value) == (EntryScan { exec_line: Some(value), ..st }),
        scan_entry_line(st, "Type="@ + value) == (EntryScan { kind: Some(value), ..st }),
        scan_entry_line(st, "Hidden="@ + value) == (EntryScan { hidden: says_true(value), ..st }),
        scan_entry_line(st, "NoDisplay="@ + value) == (EntryScan { no_display: says_true(value), ..st }),
        scan_entry_line(st, "DesktopNames="@ + value) == (EntryScan {
            desktop_names: non_empty(split_on(value, ';')),
            ..st
        }),
{
    reveal_strlit("Name");
    reveal_strlit("Exec");
    reveal_strlit("Type");
    reveal_strlit("Hidden");
    reveal_strlit("NoDisplay");
    reveal_strlit("DesktopNames");
    reveal_strlit("Name=");
    reveal_strlit("Exec=");
    reveal_strlit("Type=");
    reveal_strlit("Hidden=");
    reveal_strlit("NoDisplay=");
    reveal_strlit("DesktopNames=");
    let keys = seq!["Name"@, "Exec"@, "Type"@, "Hidden"@, "NoDisplay"@, "DesktopNames"@];
    assert forall|i: int| 0 <= i < keys.len() implies !(#[trigger] keys[i]).contains('=') && !keys[i].contains('[') by {
        if keys[i].contains('=') || keys[i].contains('[') {
            let j = choose|j: int| 0 <= j < keys[i].len() && (keys[i][j] == '=' || keys[i][j] == '[');
        }
    }
    assert(keys[0] == "Name"@);
    assert(keys[1] == "Exec"@);
    assert(keys[2] == "Type"@);
    assert(keys[3] == "Hidden"@);
    assert(keys[4] == "NoDisplay"@);
    assert(keys[5] == "DesktopNames"@);
    lemma_key_value_line("Name"@, value);
    lemma_key_value_line("Exec"@, value);
    lemma_key_value_line("Type"@, value);
    lemma_key_value_line("Hidden"@, value);
    lemma_key_value_line("NoDisplay"@, value);
    lemma_key_value_line("DesktopNames"@, value);
    assert("Name="@ =~= "Name"@.push('='));
    assert("Exec="@ =~= "Exec"@.push('='));
    assert("Type="@ =~= "Type"@.push('='));
    assert("Hidden="@ =~= "Hidden"@.push('='));
    assert("NoDisplay="@ =~= "NoDisplay"@.push('='));
    assert("DesktopNames="@ =~= "DesktopNames"@.push('='));
    assert("Exec"@ != "Name"@) by { assert("Exec"@[0] != "Name"@[0]); }
    assert("Type"@ != "Name"@ && "Type"@ != "Exec"@) by {
        assert("Type"@[0] != "Name"@[0] && "Type"@[0] != "Exec"@[0]);
    }
    assert("Hidden"@ != "Name"@ && "Hidden"@ != "Exec"@ && "Hidden"@ != "Type"@);
    assert("NoDisplay"@ != "Name"@ && "NoDisplay"@ != "Exec"@ && "NoDisplay"@ != "Type"@
        && "NoDisplay"@ != "Hidden"@ && "NoDisplay"@ != "DesktopNames"@);
    assert("DesktopNames"@ != "Name"@ && "DesktopNames"@ != "Exec"@ && "DesktopNames"@ != "Type"@);
    assert("Hidden"@ != "DesktopNames"@);
}

/// A desktop entry gives a session exactly when it is neither hidden nor
/// kept from display, is an application or says nothing of its type, and
/// has a name and an `Exec` line that splits into arguments; the session
/// then has the entry's name, the arguments of its `Exec` line, and its
/// desktop names.
pub proof fn lemma_entry_gives_a_session(id: Seq<char>, content: Seq<char>)
    ensures
        ({
            let st = scan_entry(lines(content));
            &&& desktop_entry(id, content) is Some <==> (!st.hidden && !st.no_display && (st.kind is None
                || st.kind == Some("Application"@)) && st.name is Some && st.exec_line is Some && exec_args(
                st.exec_line.unwrap(),
            ) is Ok)
            &&& desktop_entry(id, content) is Some ==> (Some(desktop_entry(id, content).unwrap().name)
                == st.name && exec_args(st.exec_line.unwrap()) == Ok::<Seq<Seq<char>>, ExecError>(
                desktop_entry(id, content).unwrap().argv,
            ) && desktop_entry(id, content).unwrap().desktop_names == st.desktop_names)
        }),
{
}

proof fn lemma_non_empty_keeps_filled(parts: Seq<Seq<char>>)
    requires
        forall|k: int| 0 <= k < parts.len() ==> (#[trigger] parts[k]).len() > 0,
    ensures
        non_empty(parts) == parts,
    decreases parts.len(),
{
    if parts.len() > 0 {
        assert forall|k: int| 0 <= k < parts.drop_last().len() implies (#[trigger] parts.drop_last()[k]).len() > 0 by {
            assert(parts.drop_last()[k] == parts[k]);
        }
        lemma_non_empty_keeps_filled(parts.drop_last());
        assert(parts[parts.len() - 1] == parts.last());
        assert(parts.drop_last().push(parts.last()) =~= parts);
    }
}

/// For a list of data directories, none empty and none holding a `:`,
/// joined by `:`, the session directories are the `wayland-sessions`
/// directory of each, in the order given.
pub proof fn lemma_session_dirs_follow_the_list(dirs: Seq<Seq<char>>)
    requires
        dirs.len() >= 1,
        forall|k: int| 0 <= k < dirs.len() ==> (#[trigger] dirs[k]).len() > 0 && !dirs[k].contains(':'),
    ensures
        session_dirs_of(join_with(dirs, ':')) == dirs.map_values(
            |d: Seq<char>| join_path(d, "wayland-sessions"@),
        ),
{
    lemma_join_splits_back(dirs, ':');
    lemma_non_empty_keeps_filled(dirs);
    assert(dirs[0].len() > 0);
    assert(join_with(dirs, ':').len() > 0) by {
        if join_with(dirs, ':').len() == 0 {
            assert(split_on(join_with(dirs, ':'), ':') == seq![Seq::<char>::empty()]);
            assert(dirs[0] == split_on(join_with(dirs, ':'), ':')[0]);
        }
    }
}

} // verus!
