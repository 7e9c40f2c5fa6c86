//! Read a tmux pane as a cell grid.
//!
//! tmux is the capture source rather than a screen grabber because the pane is
//! already text: a grid plus SGR attributes is a few kilobytes, needs no
//! compositor permission, and re-renders crisply at any TV resolution.
//!
//! Running tmux is the caller's part; this module says what to ask it and
//! what its answers mean.

use vstd::prelude::*;

use crate::number::{parse_radix, parse_u8, parse_usize};
use crate::text::{
    chars_of, debug_of, debug_str, lemma_seq_less_irreflexive, lemma_seq_less_total,
    lemma_seq_less_transitive, less_chars, lines, position, push_str, same, seq_less,
    slice, split, split_chars, split_lines, string_of, views,
};

verus! {

/// One tmux call has to answer geometry, cursor and identity at once.
pub const INFO_FORMAT: &'static str =
    "#{pane_id}\t#{pane_width}\t#{pane_height}\t#{cursor_x}\t#{cursor_y}\t#{pane_title}";

/// What `list-panes` is asked for when looking for another pane.
pub const LIST_FORMAT: &'static str = "#{pane_id}\t#{window_last_flag}\t#{pane_active}";

/// Geometry, cursor and identity of a pane.
#[derive(Debug, PartialEq, Eq)]
pub struct PaneInfo {
    pub pane_id: String,
    pub width: usize,
    pub height: usize,
    pub cursor: (usize, usize),
    pub title: String,
}

/// A pane's description as text and numbers.
pub open spec fn info_view(p: PaneInfo) -> (Seq<char>, usize, usize, (usize, usize), Seq<char>) {
    (p.pane_id@, p.width, p.height, p.cursor, p.title@)
}

/// Length of `s` once trailing newlines are dropped.
pub open spec fn end_before_newlines(s: Seq<char>, j: int) -> int
    decreases j,
{
    if 0 < j <= s.len() && s[j - 1] == '\n' {
        end_before_newlines(s, j - 1)
    } else {
        j
    }
}

/// The fields of a `display-message` answer: tab-separated, trailing
/// newlines dropped.
pub open spec fn info_fields(line: Seq<char>) -> Seq<Seq<char>> {
    split(line.take(end_before_newlines(line, line.len() as int)), '\t')
}

/// A field read as a `usize`, or the error naming it.
pub open spec fn number_field(s: Seq<char>) -> Result<usize, Seq<char>> {
    match parse_radix(s, 10, usize::MAX as nat) {
        Some(n) => Ok(n as usize),
        None => Err("not a number: "@ + debug_of(s)),
    }
}

/// What `parse_info` makes of a line: the pane id, four numbers (width,
/// height, cursor column and row) and an optional title; the first failure
/// is the error.
pub open spec fn parsed_info(line: Seq<char>) -> Result<
    (Seq<char>, usize, usize, (usize, usize), Seq<char>),
    Seq<char>,
> {
    let f = info_fields(line);
    if f.len() < 5 {
        Err("unexpected tmux answer: "@ + debug_of(line))
    } else {
        match number_field(f[1]) {
            Err(e) => Err(e),
            Ok(w) => match number_field(f[2]) {
                Err(e) => Err(e),
                Ok(h) => match number_field(f[3]) {
                    Err(e) => Err(e),
                    Ok(x) => match number_field(f[4]) {
                        Err(e) => Err(e),
                        Ok(y) => Ok(
                            (
                                f[0],
                                w,
                                h,
                                (x, y),
                                if f.len() > 5 {
                                    f[5]
                                } else {
                                    Seq::empty()
                                },
                            ),
                        ),
                    },
                },
            },
        }
    }
}

fn number(s: &Vec<char>) -> (res: Result<usize, String>)
    ensures
        match res {
            Ok(n) => number_field(s@) == Ok::<usize, Seq<char>>(n),
            Err(e) => number_field(s@) == Err::<usize, Seq<char>>(e@),
        },
{
    match parse_usize(s) {
        Some(n) => Ok(n),
        None => {
            let mut e: Vec<char> = Vec::new();
            push_str(&mut e, "not a number: ");
            let shown = debug_str(string_of(s).as_str());
            push_str(&mut e, shown.as_str());
            Err(string_of(&e))
        },
    }
}

pub fn parse_info(line: &str) -> (res: Result<PaneInfo, String>)
    ensures
        match res {
            Ok(p) => parsed_info(line@) == Ok::<
                (Seq<char>, usize, usize, (usize, usize), Seq<char>),
                Seq<char>,
            >(info_view(p)),
            Err(e) => parsed_info(line@) == Err::<
                (Seq<char>, usize, usize, (usize, usize), Seq<char>),
                Seq<char>,
            >(e@),
        },
{
    let l = chars_of(line);
    let mut j = l.len();
    while j > 0 && l[j - 1] == '\n'
        invariant
            j <= l@.len(),
            end_before_newlines(l@, l@.len() as int) == end_before_newlines(l@, j as int),
        decreases j,
    {
        j -= 1;
    }
    let body = slice(&l, 0, j);
    assert(body@ =~= line@.take(end_before_newlines(line@, line@.len() as int)));
    let f = split_chars(&body, '\t');
    let ghost fv = views(f@);
    if f.len() < 5 {
        let mut e: Vec<char> = Vec::new();
        push_str(&mut e, "unexpected tmux answer: ");
        let shown = debug_str(line);
        push_str(&mut e, shown.as_str());
        return Err(string_of(&e));
    }
    assert(fv[1] == f@[1]@ && fv[2] == f@[2]@ && fv[3] == f@[3]@ && fv[4] == f@[4]@);
    assert(fv[0] == f@[0]@);
    let width = match number(&f[1]) {
        Ok(n) => n,
        Err(e) => return Err(e),
    };
    let height = match number(&f[2]) {
        Ok(n) => n,
        Err(e) => return Err(e),
    };
    let x = match number(&f[3]) {
        Ok(n) => n,
        Err(e) => return Err(e),
    };
    let y = match number(&f[4]) {
        Ok(n) => n,
        Err(e) => return Err(e),
    };
    let title = if f.len() > 5 {
        assert(fv[5] == f@[5]@);
        string_of(&f[5])
    } else {
        String::new()
    };
    Ok(PaneInfo { pane_id: string_of(&f[0]), width, height, cursor: (x, y), title })
}

/// `=work:` -> `=work:!`, tmux's own name for the last-used window.
///
/// Letting tmux resolve this saves a `list-panes` round trip and can never go
/// stale the way a cached pane id would.
pub fn last_window_target(target: &str) -> (res: Option<String>)
    ensures
        match res {
            Some(t) => target@.len() > 0 && target@.last() == ':' && t@ == target@.push('!'),
            None => !(target@.len() > 0 && target@.last() == ':'),
        },
{
    let t = chars_of(target);
    if t.len() > 0 && t[t.len() - 1] == ':' {
        let mut out = slice(&t, 0, t.len());
        out.push('!');
        Some(string_of(&out))
    } else {
        None
    }
}

/// The session target for session `name`: `=name:`.
pub fn session_target(name: &str) -> (res: String)
    ensures
        res@ == seq!['='] + name@ + seq![':'],
{
    let mut out: Vec<char> = Vec::new();
    out.push('=');
    push_str(&mut out, name);
    out.push(':');
    string_of(&out)
}

/// What a `--target` spec asks for.
#[derive(Debug, Clone, PartialEq, Eq)]
pub enum TargetPlan {
    /// This very pane (`self`).
    OwnPane,
    /// The named session, created detached if it does not exist.
    Session(String),
    /// The active pane of the session this runs in.
    CurrentSession,
    /// A target tmux is handed unchanged.
    Given(String),
}

/// Turn a `--target` spec into what tmux has to be asked for.
///
/// `auto` follows the active pane of the current session (a dedicated one
/// outside tmux), `self` is this pane, `new` is a dedicated detached session,
/// anything else goes to tmux unchanged.
pub fn plan_target(spec: &str, inside_tmux: bool) -> (res: TargetPlan)
    ensures
        spec@ == "self"@ ==> res == TargetPlan::OwnPane,
        spec@ == "new"@ ==> (res matches TargetPlan::Session(n) && n@ == "ttycast"@),
        spec@ == "auto"@ && inside_tmux ==> res == TargetPlan::CurrentSession,
        spec@ == "auto"@ && !inside_tmux ==> (res matches TargetPlan::Session(n) && n@
            == "ttycast"@),
        spec@ != "self"@ && spec@ != "new"@ && spec@ != "auto"@ ==> (res matches TargetPlan::Given(
            t,
        ) && t@ == spec@),
{
    let s = chars_of(spec);
    proof {
        reveal_strlit("self");
        reveal_strlit("new");
        reveal_strlit("auto");
        assert("self"@.len() == 4 && "new"@.len() == 3 && "auto"@.len() == 4);
        assert("self"@[0] != "auto"@[0]);
    }
    if same(&s, &chars_of("self")) {
        TargetPlan::OwnPane
    } else if same(&s, &chars_of("new")) {
        TargetPlan::Session("ttycast".to_owned())
    } else if same(&s, &chars_of("auto")) {
        if inside_tmux {
            TargetPlan::CurrentSession
        } else {
            TargetPlan::Session("ttycast".to_owned())
        }
    } else {
        TargetPlan::Given(spec.to_owned())
    }
}

// ---------------------------------------------------------------------------
// Choosing another pane

/// A `list-panes` line as a candidate: `(last-window flag, active flag, id)`,
/// unless it is malformed or names the excluded pane.
pub open spec fn candidate(line: Seq<char>, exclude: Seq<char>) -> Option<(u8, u8, Seq<char>)> {
    let f = split(line, '\t');
    if f.len() != 3 || f[0] == exclude {
        None
    } else {
        match (parse_radix(f[1], 10, u8::MAX as nat), parse_radix(f[2], 10, u8::MAX as nat)) {
            (Some(a), Some(b)) => Some((a as u8, b as u8, f[0])),
            _ => None,
        }
    }
}

/// The candidates of the lines from `k` on, in order.
pub open spec fn candidates(ls: Seq<Seq<char>>, exclude: Seq<char>, k: int) -> Seq<
    (u8, u8, Seq<char>),
>
    decreases ls.len() - k,
{
    if k < 0 || k >= ls.len() {
        Seq::empty()
    } else {
        match candidate(ls[k], exclude) {
            Some(c) => seq![c] + candidates(ls, exclude, k + 1),
            None => candidates(ls, exclude, k + 1),
        }
    }
}

/// Strict order of candidates: by last-window flag, then active flag, then id.
pub open spec fn candidate_less(a: (u8, u8, Seq<char>), b: (u8, u8, Seq<char>)) -> bool {
    a.0 < b.0 || (a.0 == b.0 && (a.1 < b.1 || (a.1 == b.1 && seq_less(a.2, b.2))))
}

proof fn lemma_candidate_order(a: (u8, u8, Seq<char>), b: (u8, u8, Seq<char>), c: (u8, u8, Seq<char>))
    ensures
        !candidate_less(a, a),
        a == b || candidate_less(a, b) || candidate_less(b, a),
        candidate_less(a, b) && candidate_less(b, c) ==> candidate_less(a, c),
{
    lemma_seq_less_irreflexive(a.2);
    lemma_seq_less_total(a.2, b.2);
    if candidate_less(a, b) && candidate_less(b, c) && a.0 == b.0 && b.0 == c.0 && a.1 == b.1
        && b.1 == c.1 {
        lemma_seq_less_transitive(a.2, b.2, c.2);
    }
}

fn candidate_of(line: &Vec<char>, exclude: &Vec<char>) -> (res: Option<(u8, u8, Vec<char>)>)
    ensures
        match res {
            Some((a, b, id)) => candidate(line@, exclude@) == Some((a, b, id@)),
            None => candidate(line@, exclude@) is None,
        },
{
    let f = split_chars(line, '\t');
    let ghost fv = views(f@);
    if f.len() != 3 {
        return None;
    }
    assert(fv[0] == f@[0]@ && fv[1] == f@[1]@ && fv[2] == f@[2]@);
    if same(&f[0], exclude) {
        return None;
    }
    let a = match parse_u8(&f[1]) {
        Some(v) => v,
        None => return None,
    };
    let b = match parse_u8(&f[2]) {
        Some(v) => v,
        None => return None,
    };
    Some((a, b, slice(&f[0], 0, f[0].len())))
}

/// Active pane of the last-used window, from a `list-panes -F` listing in
/// [`LIST_FORMAT`], skipping `exclude`: the greatest candidate by
/// last-window flag, then active flag, then id.
pub fn fallback_from(listing: &str, exclude: &str) -> (res: Option<String>)
    ensures
        ({
            let cs = candidates(lines(listing@), exclude@, 0);
            match res {
                None => cs.len() == 0,
                Some(id) => exists|i: int|
                    0 <= i < cs.len() && (#[trigger] cs[i]).2 == id@ && forall|j: int|
                        0 <= j < cs.len() ==> !candidate_less(cs[i], #[trigger] cs[j]),
            }
        }),
{
    let t = chars_of(listing);
    let ex = chars_of(exclude);
    let ls = split_lines(&t);
    let ghost lv = views(ls@);
    let ghost all = candidates(lv, ex@, 0);
    let mut best: Option<(u8, u8, Vec<char>)> = None;
    let ghost mut seen: Seq<(u8, u8, Seq<char>)> = Seq::empty();
    let mut k: usize = 0;
    while k < ls.len()
        invariant
            k <= ls@.len(),
            lv == views(ls@),
            lv == lines(listing@),
            ex@ == exclude@,
            all == candidates(lv, ex@, 0),
            all == seen + candidates(lv, ex@, k as int),
            match best {
                None => seen.len() == 0,
                Some((a, b, id)) => exists|i: int|
                    0 <= i < seen.len() && #[trigger] seen[i] == (a, b, id@) && forall|j: int|
                        0 <= j < seen.len() ==> !candidate_less((a, b, id@), #[trigger] seen[j]),
            },
        decreases ls@.len() - k,
    {
        assert(lv[k as int] == ls@[k as int]@);
        let c = candidate_of(&ls[k], &ex);
        match c {
            Some((a, b, id)) => {
                let ghost cv = (a, b, id@);
                let ghost before = seen;
                proof {
                    seen = seen.push(cv);
                    assert(before + candidates(lv, ex@, k as int) =~= seen + candidates(
                        lv,
                        ex@,
                        k + 1,
                    ));
                }
                let replace = match &best {
                    None => true,
                    Some((ba, bb, bid)) => *ba < a || (*ba == a && (*bb < b || (*bb == b
                        && less_chars(bid, &id)))),
                };
                if replace {
                    proof {
                        assert forall|j: int| 0 <= j < seen.len() implies !candidate_less(
                            cv,
                            #[trigger] seen[j],
                        ) by {
                            lemma_candidate_order(cv, seen[j], cv);
                            if j < before.len() {
                                match &best {
                                    Some((ba, bb, bid)) => {
                                        let bv = (*ba, *bb, bid@);
                                        lemma_candidate_order(seen[j], bv, cv);
                                        lemma_candidate_order(bv, seen[j], cv);
                                        assert(!candidate_less(bv, seen[j]));
                                    },
                                    None => {},
                                }
                            }
                        }
                        assert(seen[seen.len() - 1] == cv);
                    }
                    best = Some((a, b, id));
                } else {
                    proof {
                        match &best {
                            Some((ba, bb, bid)) => {
                                let bv = (*ba, *bb, bid@);
                                let w = choose|i: int|
                                    0 <= i < before.len() && #[trigger] before[i] == bv;
                                assert(seen[w] == bv);
                                assert forall|j: int| 0 <= j < seen.len() implies !candidate_less(
                                    bv,
                                    #[trigger] seen[j],
                                ) by {
                                    if j < before.len() {
                                        assert(seen[j] == before[j]);
                                    } else {
                                        assert(seen[j] == cv);
                                    }
                                }
                            },
                            None => {},
                        }
                    }
                }
            },
            None => {
                assert(seen + candidates(lv, ex@, k as int) =~= seen + candidates(
                    lv,
                    ex@,
                    k + 1,
                ));
            },
        }
        k += 1;
    }
    assert(all =~= seen);
    match best {
        Some((_, _, id)) => Some(string_of(&id)),
        None => None,
    }
}

/// Geometry, cursor and contents out of the answer to the chained
/// `display-message` and `capture-pane` call: the first line is the pane's
/// description, the rest its contents.
pub open spec fn bundle_parts(out: Seq<char>) -> (Seq<char>, Seq<char>) {
    match crate::text::find_char(out, '\n', 0) {
        Some(k) => (out.take(k), out.skip(k + 1)),
        None => (out, Seq::empty()),
    }
}

/// Split one tmux answer into the pane's description and its contents.
pub fn split_bundle(out: &str) -> (res: Result<(PaneInfo, String), String>)
    ensures
        match res {
            Ok((info, text)) => parsed_info(bundle_parts(out@).0) == Ok::<
                (Seq<char>, usize, usize, (usize, usize), Seq<char>),
                Seq<char>,
            >(info_view(info)) && text@ == bundle_parts(out@).1,
            Err(e) => parsed_info(bundle_parts(out@).0) == Err::<
                (Seq<char>, usize, usize, (usize, usize), Seq<char>),
                Seq<char>,
            >(e@),
        },
{
    let o = chars_of(out);
    proof {
        crate::text::lemma_find_char(o@, '\n', 0);
    }
    let n = o.len();
    let (first, rest) = match position(&o, '\n', 0) {
        Some(k) => (slice(&o, 0, k), slice(&o, k + 1, n)),
        None => (slice(&o, 0, n), Vec::new()),
    };
    assert(first@ =~= bundle_parts(out@).0);
    assert(rest@ =~= bundle_parts(out@).1);
    let first = string_of(&first);
    match parse_info(first.as_str()) {
        Ok(info) => Ok((info, string_of(&rest))),
        Err(e) => Err(e),
    }
}

/// Which pane to show instead of this one.
#[derive(Debug, Clone, PartialEq, Eq)]
pub enum Alternative {
    /// A target tmux resolves itself (the last-used window of a session).
    Target(String),
    /// The best pane of a `list-panes` listing, other than the one named.
    Fallback(String),
}

/// Where panes are captured from.
pub struct PaneSource {
    pub target: String,
    pub avoid_self: bool,
    /// The pane this runs in, if any.
    pub own: Option<String>,
}

impl PaneSource {
    /// A source for `target`; `own` is the pane this runs in, if any.
    pub fn new(target: String, own: Option<String>) -> (res: Self)
        ensures
            res.target == target,
            res.avoid_self,
            res.own == own,
    {
        PaneSource { target, avoid_self: true, own }
    }

    /// Whether a capture described by `info` is of this very pane, and so
    /// should be replaced by another one.
    pub fn shows_itself(&self, info: &PaneInfo) -> (res: bool)
        ensures
            res == (self.avoid_self && (self.own matches Some(o) && o@ == info.pane_id@)),
    {
        if !self.avoid_self {
            return false;
        }
        match &self.own {
            Some(o) => same(&chars_of(o.as_str()), &chars_of(info.pane_id.as_str())),
            None => false,
        }
    }

    /// The pane to show instead: the last-used window of a session target,
    /// else the best other pane tmux lists.
    pub fn alternative(&self) -> (res: Alternative)
        ensures
            match res {
                Alternative::Target(t) => self.target@.len() > 0 && self.target@.last() == ':'
                    && t@ == self.target@.push('!'),
                Alternative::Fallback(ex) => !(self.target@.len() > 0 && self.target@.last()
                    == ':') && ex@ == match self.own {
                    Some(o) => o@,
                    None => Seq::<char>::empty(),
                },
            },
    {
        match last_window_target(self.target.as_str()) {
            Some(t) => Alternative::Target(t),
            None => Alternative::Fallback(
                match &self.own {
                    Some(o) => o.clone(),
                    None => String::new(),
                },
            ),
        }
    }
}


/// What a capture is compared by: the raw text, the size and the cursor.
pub open spec fn signature(info: PaneInfo, text: Seq<char>) -> (Seq<char>, usize, usize, (usize, usize)) {
    (text, info.width, info.height, info.cursor)
}

/// The last capture that was rendered, so an unchanged pane costs one
/// comparison instead of a parse and a render.
pub struct LastCapture {
    pub last: Option<(String, usize, usize, (usize, usize))>,
}

/// The remembered signature, as text and numbers.
pub open spec fn remembered(l: LastCapture) -> Option<(Seq<char>, usize, usize, (usize, usize))> {
    match l.last {
        Some((t, w, h, c)) => Some((t@, w, h, c)),
        None => None,
    }
}

impl LastCapture {
    pub fn new() -> (res: Self)
        ensures
            remembered(res) is None,
    {
        LastCapture { last: None }
    }

    /// Whether a capture differs from the last one rendered; if it does, it
    /// becomes the one remembered.
    pub fn is_new(&mut self, info: &PaneInfo, text: &str) -> (res: bool)
        ensures
            res == (remembered(*old(self)) != Some(signature(*info, text@))),
            remembered(*final(self)) == Some(signature(*info, text@)),
    {
        let same_as_last = match &self.last {
            Some((t, w, h, c)) => *w == info.width && *h == info.height && c.0 == info.cursor.0
                && c.1 == info.cursor.1 && same(&chars_of(t.as_str()), &chars_of(text)),
            None => false,
        };
        if same_as_last {
            return false;
        }
        self.last = Some((text.to_owned(), info.width, info.height, info.cursor));
        true
    }

    /// Forget the last capture, so the next one is rendered whatever it is.
    pub fn forget(&mut self)
        ensures
            remembered(*final(self)) is None,
    {
        self.last = None;
    }
}

} // verus!
