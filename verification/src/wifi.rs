//! Can this machine even do Wi-Fi Direct?
//!
//! Miracast rides on Wi-Fi Direct, and Wi-Fi Direct needs a driver that offers
//! `P2P-client`/`P2P-GO` interface modes. Plenty of laptops - anything on
//! Broadcom's proprietary `wl`, for one - never do, and no amount of userspace
//! can work around it. Better to say so up front than to fail deep in a
//! handshake.
//!
//! Reading `iw list` and judging the answer happen here; running `iw` and
//! reading sysfs are left to the caller.

use vstd::prelude::*;

use crate::text::{
    chars_of, has_prefix, join, join_chars, lines, push_chars, push_str, slice, split_lines,
    starts_with_str, string_of, string_views, trim, trim_chars, views,
};

verus! {

/// One wireless device and the interface modes its driver offers.
#[derive(Debug, Clone, PartialEq, Eq)]
pub struct Phy {
    pub name: String,
    pub modes: Vec<String>,
    pub driver: String,
}

/// A device as text: its name and its modes. The driver is not part of it:
/// `iw list` does not name one, and the functions that fill it in state it on
/// its own.
pub open spec fn phy_view(p: Phy) -> (Seq<char>, Seq<Seq<char>>) {
    (p.name@, string_views(p.modes@))
}

/// Whether a mode list offers a Wi-Fi Direct mode.
pub open spec fn offers_p2p(modes: Seq<Seq<char>>) -> bool {
    exists|i: int| 0 <= i < modes.len() && has_prefix(#[trigger] modes[i], "P2P-"@)
}

impl Phy {
    pub fn supports_p2p(&self) -> (res: bool)
        ensures
            res == offers_p2p(string_views(self.modes@)),
    {
        let ghost ms = string_views(self.modes@);
        let mut i: usize = 0;
        while i < self.modes.len()
            invariant
                i <= self.modes@.len(),
                ms == string_views(self.modes@),
                forall|k: int| 0 <= k < i ==> !has_prefix(#[trigger] ms[k], "P2P-"@),
            decreases self.modes@.len() - i,
        {
            let m = chars_of(self.modes[i].as_str());
            assert(ms[i as int] == m@);
            proof {
                reveal_strlit("P2P-");
            }
            if starts_with_str(&m, "P2P-") {
                return true;
            }
            i += 1;
        }
        false
    }
}

/// Where the reader of `iw list` stands: the devices finished, the one being
/// read, and whether mode lines are being read.
pub struct IwState {
    pub phys: Seq<(Seq<char>, Seq<Seq<char>>)>,
    pub current: Option<(Seq<char>, Seq<Seq<char>>)>,
    pub in_modes: bool,
}

/// `st` after one line of `iw list`.
pub open spec fn iw_step(st: IwState, line: Seq<char>) -> IwState {
    if has_prefix(line, "Wiphy "@) {
        IwState {
            phys: match st.current {
                Some(p) => st.phys.push(p),
                None => st.phys,
            },
            current: Some((trim(line.skip(6)), Seq::empty())),
            in_modes: false,
        }
    } else {
        let trimmed = trim(line);
        if has_prefix(trimmed, "Supported interface modes:"@) {
            IwState { in_modes: true, ..st }
        } else if st.in_modes {
            if has_prefix(trimmed, "* "@) {
                IwState {
                    current: match st.current {
                        Some((name, modes)) => Some((name, modes.push(trim(trimmed.skip(2))))),
                        None => None,
                    },
                    ..st
                }
            } else if trimmed.len() > 0 {
                IwState { in_modes: false, ..st }
            } else {
                st
            }
        } else {
            st
        }
    }
}

/// The state after the lines from `k` on.
pub open spec fn iw_fold(ls: Seq<Seq<char>>, k: int, st: IwState) -> IwState
    decreases ls.len() - k,
{
    if k < 0 || k >= ls.len() {
        st
    } else {
        iw_fold(ls, k + 1, iw_step(st, ls[k]))
    }
}

/// The devices `iw list` describes, in order: each `Wiphy` line starts one,
/// and the `* mode` lines under "Supported interface modes:" are its modes.
pub open spec fn iw_phys(text: Seq<char>) -> Seq<(Seq<char>, Seq<Seq<char>>)> {
    let st = iw_fold(lines(text), 0, IwState { phys: Seq::empty(), current: None, in_modes: false });
    match st.current {
        Some(p) => st.phys.push(p),
        None => st.phys,
    }
}

/// The devices of a list, as text.
pub open spec fn phy_views(v: Seq<Phy>) -> Seq<(Seq<char>, Seq<Seq<char>>)> {
    v.map_values(|p: Phy| phy_view(p))
}

fn new_phy(name: Vec<char>) -> (res: Phy)
    ensures
        phy_view(res) == (name@, Seq::<Seq<char>>::empty()),
        res.driver@ == Seq::<char>::empty(),
{
    let res = Phy { name: string_of(&name), modes: Vec::new(), driver: String::new() };
    assert(string_views(res.modes@) =~= Seq::<Seq<char>>::empty());
    res
}

/// Pull `(phy, supported modes)` out of `iw list`.
///
/// The drivers are left empty; reading them is the caller's business.
pub fn parse_iw_list(text: &str) -> (res: Vec<Phy>)
    ensures
        phy_views(res@) == iw_phys(text@),
        forall|i: int| 0 <= i < res@.len() ==> (#[trigger] res@[i]).driver@.len() == 0,
{
    let t = chars_of(text);
    let ls = split_lines(&t);
    let ghost lv = views(ls@);
    let mut phys: Vec<Phy> = Vec::new();
    let mut current: Option<Phy> = None;
    let mut in_modes = false;
    let mut k: usize = 0;
    proof {
        reveal_strlit("Wiphy ");
        reveal_strlit("Supported interface modes:");
        reveal_strlit("* ");
    }
    assert(phy_views(phys@) =~= Seq::<(Seq<char>, Seq<Seq<char>>)>::empty());
    while k < ls.len()
        invariant
            k <= ls@.len(),
            lv == views(ls@),
            lv == lines(text@),
            "Wiphy "@.len() == 6,
            "* "@.len() == 2,
            iw_fold(lv, 0, IwState { phys: Seq::empty(), current: None, in_modes: false })
                == iw_fold(
                lv,
                k as int,
                IwState {
                    phys: phy_views(phys@),
                    current: match current {
                        Some(p) => Some(phy_view(p)),
                        None => None,
                    },
                    in_modes,
                },
            ),
            forall|i: int| 0 <= i < phys@.len() ==> (#[trigger] phys@[i]).driver@.len() == 0,
            current matches Some(p) ==> p.driver@.len() == 0,
        decreases ls@.len() - k,
    {
        let line = &ls[k];
        assert(lv[k as int] == line@);
        if starts_with_str(line, "Wiphy ") {
            let ghost before = phy_views(phys@);
            match current {
                Some(p) => {
                    phys.push(p);
                    assert(phy_views(phys@) =~= before.push(phy_view(p)));
                },
                None => {},
            }
            let rest = slice(line, 6, line.len());
            assert(rest@ =~= line@.skip(6));
            current = Some(new_phy(trim_chars(&rest)));
            in_modes = false;
        } else {
            let trimmed = trim_chars(line);
            if starts_with_str(&trimmed, "Supported interface modes:") {
                in_modes = true;
            } else if in_modes {
                if starts_with_str(&trimmed, "* ") {
                    let rest = slice(&trimmed, 2, trimmed.len());
                    assert(rest@ =~= trimmed@.skip(2));
                    let mode = string_of(&trim_chars(&rest));
                    match current {
                        Some(mut p) => {
                            let ghost old_modes = string_views(p.modes@);
                            p.modes.push(mode);
                            assert(string_views(p.modes@) =~= old_modes.push(
                                trim(trimmed@.skip(2)),
                            ));
                            current = Some(p);
                        },
                        None => {
                            current = None;
                        },
                    }
                } else if trimmed.len() > 0 {
                    in_modes = false;
                }
            }
        }
        k += 1;
    }
    let ghost before = phy_views(phys@);
    match current {
        Some(p) => {
            phys.push(p);
            assert(phy_views(phys@) =~= before.push(phy_view(p)));
        },
        None => {},
    }
    phys
}

/// The driver a sysfs `uevent` file names on its `DRIVER=` line; empty when
/// it names none.
pub open spec fn uevent_driver_from(ls: Seq<Seq<char>>, k: int) -> Seq<char>
    decreases ls.len() - k,
{
    if k < 0 || k >= ls.len() {
        Seq::empty()
    } else if has_prefix(ls[k], "DRIVER="@) {
        ls[k].skip(7)
    } else {
        uevent_driver_from(ls, k + 1)
    }
}

/// Best-effort driver name from the text of a device's `uevent` file.
pub fn driver_from_uevent(text: &str) -> (res: String)
    ensures
        res@ == uevent_driver_from(lines(text@), 0),
{
    let t = chars_of(text);
    let ls = split_lines(&t);
    let ghost lv = views(ls@);
    let mut k: usize = 0;
    proof {
        reveal_strlit("DRIVER=");
    }
    while k < ls.len()
        invariant
            k <= ls@.len(),
            lv == views(ls@),
            lv == lines(text@),
            "DRIVER="@.len() == 7,
            uevent_driver_from(lv, 0) == uevent_driver_from(lv, k as int),
        decreases ls@.len() - k,
    {
        let line = &ls[k];
        assert(lv[k as int] == line@);
        if starts_with_str(line, "DRIVER=") {
            let rest = slice(line, 7, line.len());
            assert(rest@ =~= line@.skip(7));
            return string_of(&rest);
        }
        k += 1;
    }
    String::new()
}

/// The report line for one device.
pub open spec fn phy_line(p: Phy) -> Seq<char> {
    let modes = if p.modes@.len() == 0 {
        "unknown"@
    } else {
        join(string_views(p.modes@), ", "@)
    };
    let driver = if p.driver@.len() == 0 {
        Seq::empty()
    } else {
        " driver="@ + p.driver@
    };
    p.name@ + driver + if offers_p2p(string_views(p.modes@)) {
        ": P2P supported ("@
    } else {
        ": no P2P mode ("@
    } + modes + seq![')']
}

/// The advice given when no device can do Wi-Fi Direct.
pub open spec fn p2p_advice() -> Seq<char> {
    "Miracast needs Wi-Fi Direct. Fix: a USB wifi adapter whose driver offers P2P-GO/P2P-client (mt76 e.g. MT7612U, rtw88, or an Intel AX2xx)."@
}

/// The line given when there is no device at all.
pub open spec fn no_phy_line() -> Seq<char> {
    "no wireless phy found (is 'iw' installed and a wifi card present?)"@
}

/// Whether some device of the list offers Wi-Fi Direct.
pub open spec fn any_p2p(found: Seq<Phy>) -> bool {
    exists|i: int| 0 <= i < found.len() && offers_p2p(string_views((#[trigger] found[i]).modes@))
}

/// The report `p2p_report_from` gives.
pub open spec fn p2p_lines(found: Seq<Phy>) -> Seq<Seq<char>> {
    if found.len() == 0 {
        seq![no_phy_line()]
    } else {
        let per_phy = found.map_values(|p: Phy| phy_line(p));
        if any_p2p(found) {
            per_phy
        } else {
            per_phy.push(p2p_advice())
        }
    }
}

fn phy_report_line(p: &Phy) -> (res: (bool, String))
    ensures
        res.0 == offers_p2p(string_views(p.modes@)),
        res.1@ == phy_line(*p),
{
    let mut modes: Vec<char> = Vec::new();
    if p.modes.len() == 0 {
        push_str(&mut modes, "unknown");
    } else {
        let mut pieces: Vec<Vec<char>> = Vec::new();
        let mut i: usize = 0;
        while i < p.modes.len()
            invariant
                i <= p.modes@.len(),
                views(pieces@) == string_views(p.modes@).take(i as int),
            decreases p.modes@.len() - i,
        {
            let ghost before = views(pieces@);
            let m = chars_of(p.modes[i].as_str());
            pieces.push(m);
            assert(views(pieces@) =~= before.push(p.modes@[i as int]@));
            i += 1;
            assert(views(pieces@) =~= string_views(p.modes@).take(i as int));
        }
        assert(string_views(p.modes@).take(p.modes@.len() as int) =~= string_views(p.modes@));
        modes = join_chars(&pieces, &chars_of(", "));
    }
    let mut line: Vec<char> = Vec::new();
    push_str(&mut line, p.name.as_str());
    if chars_of(p.driver.as_str()).len() > 0 {
        push_str(&mut line, " driver=");
        push_str(&mut line, p.driver.as_str());
    }
    let usable = p.supports_p2p();
    if usable {
        push_str(&mut line, ": P2P supported (");
    } else {
        push_str(&mut line, ": no P2P mode (");
    }
    push_chars(&mut line, &modes);
    line.push(')');
    assert(line@ =~= phy_line(*p));
    (usable, string_of(&line))
}

/// `(usable, explanation lines)` for the doctor and for preflight.
pub fn p2p_report_from(found: &[Phy]) -> (res: (bool, Vec<String>))
    ensures
        res.0 == any_p2p(found@),
        string_views(res.1@) == p2p_lines(found@),
{
    if found.len() == 0 {
        let mut lines: Vec<String> = Vec::new();
        lines.push(
            "no wireless phy found (is 'iw' installed and a wifi card present?)".to_owned(),
        );
        assert(string_views(lines@) =~= p2p_lines(found@));
        return (false, lines);
    }
    let mut lines: Vec<String> = Vec::new();
    let mut usable = false;
    let mut i: usize = 0;
    while i < found.len()
        invariant
            i <= found@.len(),
            string_views(lines@) == found@.take(i as int).map_values(|p: Phy| phy_line(p)),
            usable == any_p2p(found@.take(i as int)),
        decreases found@.len() - i,
    {
        let ghost before = string_views(lines@);
        let (ok, line) = phy_report_line(&found[i]);
        let ghost l = line@;
        lines.push(line);
        assert(string_views(lines@) =~= before.push(l));
        if ok {
            usable = true;
        }
        i += 1;
        assert(string_views(lines@) =~= found@.take(i as int).map_values(|p: Phy| phy_line(p)));
        assert(usable == any_p2p(found@.take(i as int))) by {
            let t = found@.take(i as int);
            if ok {
                assert(offers_p2p(string_views(t[i - 1].modes@)));
            }
            if any_p2p(t) {
                let w = choose|j: int|
                    0 <= j < t.len() && offers_p2p(string_views((#[trigger] t[j]).modes@));
                if w < i - 1 {
                    assert(found@.take(i - 1)[w] == t[w]);
                }
            }
            if any_p2p(found@.take(i - 1)) {
                let w = choose|j: int|
                    0 <= j < found@.take(i - 1).len() && offers_p2p(
                        string_views((#[trigger] found@.take(i - 1)[j]).modes@),
                    );
                assert(t[w] == found@.take(i - 1)[w]);
            }
        }
    }
    assert(found@.take(found@.len() as int) =~= found@);
    if !usable {
        let ghost before = string_views(lines@);
        lines.push(
            "Miracast needs Wi-Fi Direct. Fix: a USB wifi adapter whose driver offers P2P-GO/P2P-client (mt76 e.g. MT7612U, rtw88, or an Intel AX2xx).".to_owned(),
        );
        assert(string_views(lines@) =~= before.push(p2p_advice()));
    }
    (usable, lines)
}

} // verus!
