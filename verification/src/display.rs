//! Turn the local screen off while something else is watching the stream.
//!
//! A laptop in the corner of the room does not need its own panel lit.
//! Measured on an i5-4258U at full brightness: 23.4 W with the screen on,
//! 17.2 W with the backlight at zero, 13.6 W with the output powered down by
//! the compositor. So asking the compositor is worth 3.6 W more than dimming,
//! and it hands back some CPU as well because nothing is composited for a
//! disabled output.
//!
//! Every method is reversible and is restored on the way out. If ttycast is
//! killed outright and never gets to restore anything, `ttycast screen-on`
//! undoes all of them.
//!
//! The commands themselves are run by the caller: this module names them and
//! decides when each is due.

use vstd::prelude::*;

use crate::text::{chars_of, same, string_of, trim_chars};

verus! {

#[derive(Debug, Clone, Copy, PartialEq, Eq, Structural)]
pub enum Method {
    /// Power the output down through sway; cuts more than the backlight.
    Sway,
    /// Generic wlroots output power management.
    Wlopm,
    /// X11 only; does nothing useful under a Wayland compositor.
    Xset,
    /// Set the panel backlight to zero, remembering the previous level.
    Backlight,
}

/// Preference order, decided by measurement rather than taste. Backlight is
/// last: it works anywhere, but leaves 3.6 W on the table.
pub const METHODS: [Method; 4] = [Method::Sway, Method::Wlopm, Method::Xset, Method::Backlight];

/// The CLI name of a method.
pub open spec fn method_name(m: Method) -> Seq<char> {
    match m {
        Method::Sway => "sway"@,
        Method::Wlopm => "wlopm"@,
        Method::Xset => "xset"@,
        Method::Backlight => "backlight"@,
    }
}

/// The method a CLI name stands for.
pub open spec fn method_named(name: Seq<char>) -> Option<Method> {
    if name == "sway"@ {
        Some(Method::Sway)
    } else if name == "wlopm"@ {
        Some(Method::Wlopm)
    } else if name == "xset"@ {
        Some(Method::Xset)
    } else if name == "backlight"@ {
        Some(Method::Backlight)
    } else {
        None
    }
}

/// What `ttycast doctor` says a method does.
pub open spec fn method_description(m: Method) -> Seq<char> {
    match m {
        Method::Sway => "swaymsg: output dpms off (powers the panel down, not just dark)"@,
        Method::Wlopm => "wlopm: wlroots output power off"@,
        Method::Xset => "xset: DPMS off (X11 sessions only)"@,
        Method::Backlight => "brightnessctl: backlight to 0, previous level restored on exit"@,
    }
}

/// A command line: a program and its arguments.
#[derive(Debug, Clone, PartialEq, Eq)]
pub struct Invocation {
    pub program: &'static str,
    pub args: Vec<&'static str>,
}

/// The text of each argument.
pub open spec fn arg_views(v: Seq<&'static str>) -> Seq<Seq<char>> {
    v.map_values(|a: &'static str| a@)
}

/// The command line that darkens the screen with `m`.
pub open spec fn off_command(m: Method) -> (Seq<char>, Seq<Seq<char>>) {
    match m {
        Method::Sway => ("swaymsg"@, seq!["output"@, "*"@, "dpms"@, "off"@]),
        Method::Wlopm => ("wlopm"@, seq!["--off"@, "*"@]),
        Method::Xset => ("xset"@, seq!["dpms"@, "force"@, "off"@]),
        Method::Backlight => ("brightnessctl"@, seq!["-q"@, "-s"@, "set"@, "0"@]),
    }
}

/// The command line that brings the screen back after `m`.
pub open spec fn on_command(m: Method) -> (Seq<char>, Seq<Seq<char>>) {
    match m {
        Method::Sway => ("swaymsg"@, seq!["output"@, "*"@, "dpms"@, "on"@]),
        Method::Wlopm => ("wlopm"@, seq!["--on"@, "*"@]),
        Method::Xset => ("xset"@, seq!["dpms"@, "force"@, "on"@]),
        Method::Backlight => ("brightnessctl"@, seq!["-q"@, "-r"@]),
    }
}

/// An invocation as text.
pub open spec fn invocation_view(i: Invocation) -> (Seq<char>, Seq<Seq<char>>) {
    (i.program@, arg_views(i.args@))
}

impl Method {
    pub fn name(self) -> (res: &'static str)
        ensures
            res@ == method_name(self),
    {
        match self {
            Method::Sway => "sway",
            Method::Wlopm => "wlopm",
            Method::Xset => "xset",
            Method::Backlight => "backlight",
        }
    }

    /// Shown by `ttycast doctor` so the user knows what would happen.
    pub fn describes(self) -> (res: &'static str)
        ensures
            res@ == method_description(self),
    {
        match self {
            Method::Sway => "swaymsg: output dpms off (powers the panel down, not just dark)",
            Method::Wlopm => "wlopm: wlroots output power off",
            Method::Xset => "xset: DPMS off (X11 sessions only)",
            Method::Backlight => "brightnessctl: backlight to 0, previous level restored on exit",
        }
    }

    pub fn from_name(name: &str) -> (res: Option<Method>)
        ensures
            res == method_named(name@),
    {
        let n = chars_of(name);
        let methods = METHODS;
        let mut i: usize = 0;
        proof {
            reveal_strlit("sway");
            reveal_strlit("wlopm");
            reveal_strlit("xset");
            reveal_strlit("backlight");
        }
        while i < 4
            invariant
                i <= 4,
                methods == METHODS,
                n@ == name@,
                forall|k: int| 0 <= k < i ==> method_name(#[trigger] METHODS[k]) != name@,
            decreases 4 - i,
        {
            let m = methods[i];
            if same(&n, &chars_of(m.name())) {
                return Some(m);
            }
            i += 1;
        }
        assert(method_name(METHODS[0]) != name@);
        assert(method_name(METHODS[1]) != name@);
        assert(method_name(METHODS[2]) != name@);
        assert(method_name(METHODS[3]) != name@);
        None
    }

    /// The command that darkens the screen.
    ///
    /// For the backlight, `-s` writes the current level to a state file, so
    /// `-r` works from any shell afterwards, even if this process never runs
    /// again.
    pub fn off(self) -> (res: Invocation)
        ensures
            invocation_view(res) == off_command(self),
    {
        let res = match self {
            Method::Sway => Invocation { program: "swaymsg", args: vec!["output", "*", "dpms", "off"] },
            Method::Wlopm => Invocation { program: "wlopm", args: vec!["--off", "*"] },
            Method::Xset => Invocation { program: "xset", args: vec!["dpms", "force", "off"] },
            Method::Backlight => Invocation {
                program: "brightnessctl",
                args: vec!["-q", "-s", "set", "0"],
            },
        };
        assert(arg_views(res.args@) =~= off_command(self).1);
        res
    }

    /// The command that brings the screen back.
    pub fn on(self) -> (res: Invocation)
        ensures
            invocation_view(res) == on_command(self),
    {
        let res = match self {
            Method::Sway => Invocation { program: "swaymsg", args: vec!["output", "*", "dpms", "on"] },
            Method::Wlopm => Invocation { program: "wlopm", args: vec!["--on", "*"] },
            Method::Xset => Invocation { program: "xset", args: vec!["dpms", "force", "on"] },
            Method::Backlight => Invocation { program: "brightnessctl", args: vec!["-q", "-r"] },
        };
        assert(arg_views(res.args@) =~= on_command(self).1);
        res
    }
}

/// The command that brings the screen back is the counterpart of the one
/// that darkens it: the same program; for `swaymsg` and `xset` the same
/// words with the last one `on` where darkening has `off`, for `wlopm` the
/// same words with `--on` where darkening has `--off`; and `brightnessctl`
/// saves the level (`-s`) and sets 0 to darken, then restores the saved
/// level (`-r`). So the two never run the same command.
pub proof fn on_undoes_off(m: Method)
    ensures
        on_command(m).0 == off_command(m).0,
        on_command(m).1 != off_command(m).1,
        (m == Method::Sway || m == Method::Xset) ==> off_command(m).1.last() == "off"@
            && on_command(m).1 == off_command(m).1.drop_last().push("on"@),
        m == Method::Wlopm ==> off_command(m).1[0] == "--off"@ && on_command(m).1 == off_command(
            m,
        ).1.update(0, "--on"@),
        m == Method::Backlight ==> off_command(m).1 == seq!["-q"@, "-s"@, "set"@, "0"@]
            && on_command(m).1 == seq!["-q"@, "-r"@],
{
    reveal_strlit("on");
    reveal_strlit("off");
    reveal_strlit("--on");
    reveal_strlit("--off");
    let on = on_command(m).1;
    let off = off_command(m).1;
    match m {
        Method::Sway | Method::Xset => {
            assert(on == off.drop_last().push("on"@));
            assert(on.last() == "on"@ && off.last() == "off"@);
            assert("on"@.len() == 2 && "off"@.len() == 3);
            assert(on.last() != off.last());
        },
        Method::Wlopm => {
            assert(on == off.update(0, "--on"@));
            assert(on[0] == "--on"@ && off[0] == "--off"@);
            assert("--on"@.len() == 4 && "--off"@.len() == 5);
            assert(on[0] != off[0]);
        },
        Method::Backlight => {
            assert(on.len() != off.len());
        },
    }
}

/// Whether every character of `s` is an ASCII digit.
pub open spec fn all_ascii_digits(s: Seq<char>) -> bool {
    forall|i: int| 0 <= i < s.len() ==> 48 <= (#[trigger] s[i] as u32) <= 57
}

/// The backlight level `brightnessctl get` printed: its trimmed output, when
/// that is a non-empty run of ASCII digits.
pub fn brightness_level(output: &str) -> (res: Option<String>)
    ensures
        ({
            let v = crate::text::trim(output@);
            match res {
                Some(l) => v.len() > 0 && all_ascii_digits(v) && l@ == v,
                None => !(v.len() > 0 && all_ascii_digits(v)),
            }
        }),
{
    let v = trim_chars(&chars_of(output));
    if v.len() == 0 {
        return None;
    }
    let mut i: usize = 0;
    while i < v.len()
        invariant
            i <= v@.len(),
            v@ == crate::text::trim(output@),
            forall|k: int| 0 <= k < i ==> 48 <= (#[trigger] v@[k] as u32) <= 57,
        decreases v@.len() - i,
    {
        let u = v[i] as u32;
        if !(48 <= u && u <= 57) {
            assert(!(48 <= (v@[i as int] as u32) <= 57));
            return None;
        }
        i += 1;
    }
    Some(string_of(&v))
}

/// The methods `pick` considers for a preference, in order: the named one
/// alone, none for an unknown name, and all of them for `auto` or nothing.
pub open spec fn tried(preference: Seq<char>) -> Seq<Method> {
    if preference != "auto"@ && preference.len() > 0 {
        match method_named(preference) {
            Some(m) => seq![m],
            None => Seq::empty(),
        }
    } else {
        seq![Method::Sway, Method::Wlopm, Method::Xset, Method::Backlight]
    }
}

/// The methods to try for a preference, best first; the first one that is
/// available is the one to use.
pub fn candidates(preference: &str) -> (res: Vec<Method>)
    ensures
        res@ == tried(preference@),
{
    let p = chars_of(preference);
    let mut res: Vec<Method> = Vec::new();
    if !same(&p, &chars_of("auto")) && p.len() > 0 {
        match Method::from_name(preference) {
            Some(m) => res.push(m),
            None => {},
        }
        assert(res@ =~= tried(preference@));
    } else {
        res.push(Method::Sway);
        res.push(Method::Wlopm);
        res.push(Method::Xset);
        res.push(Method::Backlight);
        assert(res@ =~= tried(preference@));
    }
    res
}

/// The first of `ms` from `k` on that is among `usable`.
pub open spec fn first_usable(ms: Seq<Method>, usable: Seq<Method>, k: int) -> Option<Method>
    decreases ms.len() - k,
{
    if k < 0 || k >= ms.len() {
        None
    } else if usable.contains(ms[k]) {
        Some(ms[k])
    } else {
        first_usable(ms, usable, k + 1)
    }
}

proof fn lemma_first_usable(ms: Seq<Method>, usable: Seq<Method>, k: int)
    requires
        0 <= k <= ms.len(),
    ensures
        first_usable(ms, usable, k) is None <==> (forall|j: int| k <= j < ms.len() ==> !usable.contains(
            #[trigger] ms[j],
        )),
        forall|j: int|
            k <= j < ms.len() && usable.contains(#[trigger] ms[j]) && (forall|i: int| k <= i < j
                ==> !usable.contains(ms[i])) ==> first_usable(ms, usable, k) == Some(ms[j]),
    decreases ms.len() - k,
{
    if k < ms.len() {
        lemma_first_usable(ms, usable, k + 1);
    }
}

/// Which way of darkening is used: a method asked for by its name only when
/// it works here; with `auto` (or nothing) the first of [`METHODS`] that
/// works, none when none does; an unknown name gives none.
pub proof fn the_first_usable_method_is_picked(m: Method, usable: Seq<Method>, other: Seq<char>)
    ensures
        method_named(method_name(m)) == Some(m),
        first_usable(tried(method_name(m)), usable, 0) == if usable.contains(m) {
            Some(m)
        } else {
            None::<Method>
        },
        first_usable(tried("auto"@), usable, 0) is None <==> (forall|j: int| 0 <= j < 4 ==> !usable.contains(
            #[trigger] METHODS[j],
        )),
        forall|j: int|
            0 <= j < 4 && usable.contains(#[trigger] METHODS[j]) && (forall|i: int| 0 <= i < j
                ==> !usable.contains(METHODS[i])) ==> first_usable(tried("auto"@), usable, 0) == Some(
                METHODS[j],
            ),
        other.len() > 0 && other != "auto"@ && method_named(other) is None ==> first_usable(
            tried(other),
            usable,
            0,
        ) is None,
{
    reveal_strlit("sway");
    reveal_strlit("wlopm");
    reveal_strlit("xset");
    reveal_strlit("backlight");
    reveal_strlit("auto");
    assert(method_name(m) != "auto"@ && method_name(m).len() > 0) by {
        assert(method_name(m).len() != 4 || method_name(m)[0] != 'a');
    }
    match m {
        Method::Sway => {},
        Method::Wlopm => {
            assert("wlopm"@.len() != "sway"@.len());
        },
        Method::Xset => {
            assert("xset"@[0] != "sway"@[0]);
            assert("xset"@.len() != "wlopm"@.len());
        },
        Method::Backlight => {
            assert("backlight"@.len() != "sway"@.len());
            assert("backlight"@.len() != "wlopm"@.len());
            assert("backlight"@.len() != "xset"@.len());
        },
    }
    assert(tried(method_name(m)) == seq![m]);
    let all = tried("auto"@);
    assert(all == seq![Method::Sway, Method::Wlopm, Method::Xset, Method::Backlight]);
    assert forall|j: int| 0 <= j < 4 implies all[j] == #[trigger] METHODS[j] by {}
    lemma_first_usable(all, usable, 0);
    lemma_first_usable(seq![m], usable, 0);
    lemma_first_usable(Seq::<Method>::empty(), usable, 0);
    assert(seq![m][0] == m);
}

fn contains_method(ms: &[Method], m: Method) -> (res: bool)
    ensures
        res == ms@.contains(m),
{
    let mut i: usize = 0;
    while i < ms.len()
        invariant
            i <= ms@.len(),
            forall|k: int| 0 <= k < i ==> #[trigger] ms@[k] != m,
        decreases ms@.len() - i,
    {
        if ms[i] == m {
            assert(ms@[i as int] == m);
            return true;
        }
        i += 1;
    }
    false
}

/// The best usable method, or the named one if it is usable; `usable` holds
/// the methods found to work on this machine.
pub fn pick(preference: &str, usable: &[Method]) -> (res: Option<Method>)
    ensures
        res == first_usable(tried(preference@), usable@, 0),
{
    let ms = candidates(preference);
    let mut i: usize = 0;
    while i < ms.len()
        invariant
            i <= ms@.len(),
            ms@ == tried(preference@),
            first_usable(ms@, usable@, 0) == first_usable(ms@, usable@, i as int),
        decreases ms@.len() - i,
    {
        if contains_method(usable, ms[i]) {
            return Some(ms[i]);
        }
        i += 1;
    }
    None
}

/// The names of the methods given, in order: what `ttycast screen-on`
/// reports as restored.
pub fn names_of(ms: &[Method]) -> (res: Vec<&'static str>)
    ensures
        arg_views(res@) == ms@.map_values(|m: Method| method_name(m)),
{
    let mut res: Vec<&'static str> = Vec::new();
    let mut i: usize = 0;
    while i < ms.len()
        invariant
            i <= ms@.len(),
            arg_views(res@) == ms@.take(i as int).map_values(|m: Method| method_name(m)),
        decreases ms@.len() - i,
    {
        let ghost before = arg_views(res@);
        let n = ms[i].name();
        res.push(n);
        assert(arg_views(res@) =~= before.push(method_name(ms@[i as int])));
        i += 1;
        assert(ms@.take(i as int).map_values(|m: Method| method_name(m)) =~= ms@.take(i - 1).map_values(
            |m: Method| method_name(m),
        ).push(method_name(ms@[i - 1])));
    }
    assert(ms@.take(ms@.len() as int) =~= ms@);
    res
}

// ---------------------------------------------------------------------------
// The screen state machine

/// How long the screen stays dark after the last viewer left, in milliseconds.
pub const GRACE_MS: u64 = 5000;

/// What the caller has to do after a step of [`ScreenPower`].
#[derive(Debug, Clone, Copy, PartialEq, Eq, Structural)]
pub enum Power {
    /// Nothing.
    Keep,
    /// Run the method's `off` command and report with `darkened`.
    Off(Method),
    /// Run the method's `on` command.
    On(Method),
}

/// Screen state driven by the viewer count, with a grace period.
///
/// An MJPEG client that reconnects would otherwise flap the screen on and off,
/// so going dark is immediate but coming back waits `grace` milliseconds.
pub struct ScreenPower {
    pub method: Option<Method>,
    pub grace: u64,
    pub is_off: bool,
    pub idle_since: Option<u64>,
}

/// The state and the action after one update with `viewers` watching at
/// time `now` (milliseconds).
pub open spec fn stepped(s: ScreenPower, viewers: usize, now: u64) -> (ScreenPower, Power) {
    match s.method {
        None => (s, Power::Keep),
        Some(m) => if viewers > 0 {
            (
                ScreenPower { idle_since: None, ..s },
                if s.is_off {
                    Power::Keep
                } else {
                    Power::Off(m)
                },
            )
        } else if !s.is_off {
            (s, Power::Keep)
        } else {
            match s.idle_since {
                None => (ScreenPower { idle_since: Some(now), ..s }, Power::Keep),
                Some(since) => if now >= since && now - since >= s.grace {
                    (ScreenPower { is_off: false, idle_since: None, ..s }, Power::On(m))
                } else {
                    (s, Power::Keep)
                },
            }
        },
    }
}

/// The state and the action of a restore.
pub open spec fn restored(s: ScreenPower) -> (ScreenPower, Power) {
    match s.method {
        Some(m) => if s.is_off {
            (ScreenPower { is_off: false, idle_since: None, ..s }, Power::On(m))
        } else {
            (ScreenPower { idle_since: None, ..s }, Power::Keep)
        },
        None => (ScreenPower { idle_since: None, ..s }, Power::Keep),
    }
}

impl ScreenPower {
    pub fn new(method: Option<Method>) -> (res: Self)
        ensures
            res == (ScreenPower { method, grace: GRACE_MS, is_off: false, idle_since: None }),
    {
        ScreenPower { method, grace: GRACE_MS, is_off: false, idle_since: None }
    }

    pub fn active(&self) -> (res: bool)
        ensures
            res == self.method is Some,
    {
        self.method.is_some()
    }

    pub fn is_off(&self) -> (res: bool)
        ensures
            res == self.is_off,
    {
        self.is_off
    }

    /// One tick with `viewers` watching at `now` (milliseconds); the caller
    /// runs what the answer asks for.
    pub fn update(&mut self, viewers: usize, now: u64) -> (res: Power)
        ensures
            (*final(self), res) == stepped(*old(self), viewers, now),
    {
        let m = match self.method {
            Some(m) => m,
            None => return Power::Keep,
        };
        if viewers > 0 {
            self.idle_since = None;
            if !self.is_off {
                return Power::Off(m);
            }
            return Power::Keep;
        }
        if !self.is_off {
            return Power::Keep;
        }
        match self.idle_since {
            None => {
                self.idle_since = Some(now);
                Power::Keep
            },
            Some(since) => {
                if now >= since && now - since >= self.grace {
                    self.is_off = false;
                    self.idle_since = None;
                    Power::On(m)
                } else {
                    Power::Keep
                }
            },
        }
    }

    /// Report whether the `off` command asked for succeeded.
    pub fn darkened(&mut self, ok: bool)
        ensures
            *final(self) == (ScreenPower { is_off: ok, ..*old(self) }),
    {
        self.is_off = ok;
    }

    /// Always safe to call, including when the screen was never darkened.
    pub fn restore(&mut self) -> (res: Power)
        ensures
            (*final(self), res) == restored(*old(self)),
    {
        self.idle_since = None;
        match self.method {
            Some(m) => {
                if self.is_off {
                    self.is_off = false;
                    Power::On(m)
                } else {
                    Power::Keep
                }
            },
            None => Power::Keep,
        }
    }

    pub fn status(&self) -> (res: &'static str)
        ensures
            res@ == if self.method is None {
                ""@
            } else if self.is_off {
                "screen off"@
            } else {
                "screen on"@
            },
    {
        if self.method.is_none() {
            ""
        } else if self.is_off {
            "screen off"
        } else {
            "screen on"
        }
    }
}

/// Going dark is immediate: a viewer arriving at a lit screen asks for the
/// method's `off` at once, whatever the time.
pub proof fn going_dark_is_immediate(s: ScreenPower, viewers: usize, now: u64)
    requires
        s.method is Some,
        !s.is_off,
        viewers > 0,
    ensures
        stepped(s, viewers, now).1 == Power::Off(s.method->0),
{
}

/// No flapping: once dark, a screen whose viewers left at `first` stays dark
/// through every tick before the grace has passed, and a viewer coming back
/// in that time clears the timer.
pub proof fn dark_through_the_grace(s: ScreenPower, first: u64, later: u64, viewers: usize)
    requires
        s.method is Some,
        s.is_off,
        s.idle_since is None,
        first <= later,
        later - first < s.grace,
    ensures
        ({
            let (a, act1) = stepped(s, 0, first);
            let (b, act2) = stepped(a, 0, later);
            let (c, act3) = stepped(a, viewers, later);
            &&& act1 == Power::Keep && act2 == Power::Keep
            &&& a.is_off && b.is_off
            &&& viewers > 0 ==> act3 == Power::Keep && c.is_off && c.idle_since is None
        }),
{
}

/// The screen comes back once the grace has passed with nobody watching.
pub proof fn back_after_the_grace(s: ScreenPower, first: u64, later: u64)
    requires
        s.method is Some,
        s.is_off,
        s.idle_since is None,
        first <= later,
        later - first >= s.grace,
    ensures
        ({
            let (a, _) = stepped(s, 0, first);
            let (b, act) = stepped(a, 0, later);
            act == Power::On(s.method->0) && !b.is_off && b.idle_since is None
        }),
{
}

/// Without a method nothing is ever asked for and the state stays put.
pub proof fn nothing_without_a_method(s: ScreenPower, viewers: usize, now: u64)
    requires
        s.method is None,
    ensures
        stepped(s, viewers, now) == (s, Power::Keep),
        restored(s).1 == Power::Keep,
{
}

/// After a restore the screen is on, and `on` is asked for exactly when it
/// was dark.
pub proof fn restore_leaves_the_screen_on(s: ScreenPower)
    requires
        s.method is Some,
    ensures
        !restored(s).0.is_off,
        restored(s).0.idle_since is None,
        (restored(s).1 == Power::On(s.method->0)) == s.is_off,
{
}

} // verus!
