//! Device discovery and naming: the per-class device maps, the synthetic
//! `auto` backlight, and resolution of user-supplied device selectors.
//!
//! Directory listing and attribute reading are the caller's work; the
//! caller hands `scan` one [`ScanEntry`] per directory entry, holding the
//! entry's name and the outcome of reading its two brightness attributes.
use vstd::prelude::*;

use crate::device::{Class, Device, DeviceView};
use crate::error::Error;
use crate::text::{
    lemma_lex_lt_connected, lemma_lex_lt_irrefl, lemma_lex_lt_trans, lex_lt, str_eq, str_lt,
};

verus! {

/// One directory entry observed while scanning a device class: its name
/// and the two brightness attributes as read, `None` where an attribute
/// was missing or unreadable.
#[derive(Clone, Debug)]
pub struct ScanEntry {
    pub name: String,
    pub brightness: Option<u32>,
    pub max_brightness: Option<u32>,
}

/// An entry takes part in a scan unless it carries the reserved name
/// `auto`, which the synthetic alias owns.
pub open spec fn entry_considered(e: ScanEntry) -> bool {
    e.name@ != "auto"@
}

/// Both brightness attributes of the entry were readable.
pub open spec fn entry_ok(e: ScanEntry) -> bool {
    e.brightness is Some && e.max_brightness is Some
}

/// The maximum brightness observed for an entry.
pub open spec fn entry_max(e: ScanEntry) -> u32 {
    match e.max_brightness {
        Some(v) => v,
        None => 0,
    }
}

/// The index of the first entry that takes part in the scan and failed
/// validation; the length when the whole listing is valid.
pub open spec fn first_bad(s: Seq<ScanEntry>) -> int
    decreases s.len(),
{
    if s.len() == 0 {
        0
    } else if entry_considered(s[0]) && !entry_ok(s[0]) {
        0
    } else {
        1 + first_bad(s.skip(1))
    }
}

/// A listing passes validation when no entry of it fails it.
pub open spec fn scan_ok(s: Seq<ScanEntry>) -> bool {
    first_bad(s) == s.len()
}

/// What `first_bad` points at: everything before it validates, and it
/// names a failing entry when it is not the length.
pub proof fn lemma_first_bad(s: Seq<ScanEntry>)
    ensures
        0 <= first_bad(s) <= s.len(),
        forall|j: int|
            0 <= j < first_bad(s) ==> (entry_considered(#[trigger] s[j]) ==> entry_ok(s[j])),
        first_bad(s) < s.len() ==> entry_considered(s[first_bad(s)]) && !entry_ok(
            s[first_bad(s)],
        ),
    decreases s.len(),
{
    if s.len() > 0 && !(entry_considered(s[0]) && !entry_ok(s[0])) {
        lemma_first_bad(s.skip(1));
        assert forall|j: int|
            0 <= j < first_bad(s) implies (entry_considered(#[trigger] s[j]) ==> entry_ok(
            s[j],
        )) by {
            if j > 0 {
                assert(s.skip(1)[j - 1] == s[j]);
            }
        }
        if first_bad(s) < s.len() {
            assert(s.skip(1)[first_bad(s) - 1] == s[first_bad(s)]);
        }
    }
}

/// The greatest maximum brightness seen over a listing, zero at the
/// start.
pub open spec fn best_value(s: Seq<ScanEntry>) -> u32
    decreases s.len(),
{
    if s.len() == 0 {
        0u32
    } else {
        let prev = best_value(s.drop_last());
        if entry_considered(s.last()) && entry_max(s.last()) > prev {
            entry_max(s.last())
        } else {
            prev
        }
    }
}

/// The on-disk name the synthetic `auto` backlight resolves to: the
/// first entry, in scan order, whose maximum brightness strictly
/// exceeded every earlier one. Later entries with an equal maximum do
/// not displace it.
pub open spec fn auto_real_name(s: Seq<ScanEntry>) -> Option<Seq<char>>
    decreases s.len(),
{
    if s.len() == 0 {
        None
    } else {
        let prev = best_value(s.drop_last());
        if entry_considered(s.last()) && entry_max(s.last()) > prev {
            Some(s.last().name@)
        } else {
            auto_real_name(s.drop_last())
        }
    }
}

/// The auto alias exists exactly when some entry has a positive
/// maximum. It then names the first entry, in scan order, whose maximum
/// no other entry exceeds: every earlier entry stays strictly below it,
/// so a later entry with an equal maximum does not displace it.
pub proof fn lemma_auto_selection(s: Seq<ScanEntry>)
    ensures
        (auto_real_name(s) is Some) <==> best_value(s) > 0,
        forall|i: int|
            0 <= i < s.len() && entry_considered(#[trigger] s[i]) ==> entry_max(s[i])
                <= best_value(s),
        auto_real_name(s) matches Some(n) ==> exists|i: int|
            0 <= i < s.len() && entry_considered(#[trigger] s[i]) && s[i].name@ == n && entry_max(
                s[i],
            ) == best_value(s) && (forall|j: int|
                0 <= j < i && entry_considered(#[trigger] s[j]) ==> entry_max(s[j]) < best_value(
                    s,
                )),
    decreases s.len(),
{
    if s.len() > 0 {
        let d = s.drop_last();
        lemma_auto_selection(d);
        assert(forall|i: int| 0 <= i < d.len() ==> d[i] == s[i]);
        if entry_considered(s.last()) && entry_max(s.last()) > best_value(d) {
            let w = s.len() - 1;
            assert(entry_considered(s[w]) && s[w].name@ == auto_real_name(s).unwrap()
                && entry_max(s[w]) == best_value(s) && (forall|j: int|
                0 <= j < w && entry_considered(#[trigger] s[j]) ==> entry_max(s[j]) < best_value(
                    s,
                )));
        } else if auto_real_name(d) is Some {
            let n = auto_real_name(d).unwrap();
            let w = choose|i: int|
                0 <= i < d.len() && entry_considered(#[trigger] d[i]) && d[i].name@ == n
                    && entry_max(d[i]) == best_value(d) && (forall|j: int|
                    0 <= j < i && entry_considered(#[trigger] d[j]) ==> entry_max(d[j])
                        < best_value(d));
            assert(entry_considered(s[w]) && s[w].name@ == n && entry_max(s[w]) == best_value(s)
                && (forall|j: int|
                0 <= j < w && entry_considered(#[trigger] s[j]) ==> entry_max(s[j]) < best_value(
                    s,
                )));
        }
    }
}

/// The views of a sequence of devices.
pub open spec fn views(s: Seq<Device>) -> Seq<DeviceView> {
    Seq::new(s.len(), |i: int| s[i]@)
}

/// An ordinary scanned device: no alias target.
pub open spec fn plain_view(class: Class, name: Seq<char>) -> DeviceView {
    DeviceView { class, name, real_name: None }
}

/// The synthetic `auto` backlight, resolving to `real`.
pub open spec fn auto_view(target: Seq<char>) -> DeviceView {
    DeviceView { class: Class::Backlight, name: "auto"@, real_name: Some(target) }
}

/// The devices a listing contributes to a class map: one plain device
/// per entry that takes part in the scan.
pub open spec fn from_entries(class: Class, s: Seq<ScanEntry>, x: DeviceView) -> bool {
    exists|k: int|
        0 <= k < s.len() && entry_considered(#[trigger] s[k]) && x == plain_view(
            class,
            s[k].name@,
        )
}

/// Strictly sorted by name: the map order of a class map.
pub open spec fn names_sorted(s: Seq<DeviceView>) -> bool {
    forall|i: int, j: int|
        0 <= i < j < s.len() ==> #[trigger] lex_lt(s[i].name, s[j].name)
}

/// Some device of the sequence carries this name.
pub open spec fn has_name(s: Seq<DeviceView>, name: Seq<char>) -> bool {
    exists|k: int| 0 <= k < s.len() && (#[trigger] s[k]).name == name
}

/// Where a device of this name would stand in the sorted map: the first
/// index whose name is not below it.
fn insert_pos(v: &Vec<Device>, name: &str) -> (i: usize)
    ensures
        i <= v@.len(),
        forall|j: int| 0 <= j < i ==> #[trigger] lex_lt(views(v@)[j].name, name@),
        i < v@.len() ==> !lex_lt(views(v@)[i as int].name, name@),
{
    let mut i: usize = 0;
    while i < v.len()
        invariant
            i <= v@.len(),
            forall|j: int| 0 <= j < i ==> #[trigger] lex_lt(views(v@)[j].name, name@),
        decreases v@.len() - i,
    {
        if !str_lt(v[i].name.as_str(), name) {
            return i;
        }
        i += 1;
    }
    i
}

/// Puts a device into the sorted map, keyed by name. The caller
/// warrants that a device already under this name, if any, carries the
/// same data, so the map after the call holds the device either way.
fn insert_sorted(v: &mut Vec<Device>, d: Device)
    requires
        names_sorted(views(old(v)@)),
        forall|k: int|
            0 <= k < old(v)@.len() && (#[trigger] views(old(v)@)[k]).name == d@.name ==> views(
                old(v)@,
            )[k] == d@,
    ensures
        names_sorted(views(final(v)@)),
        forall|x: DeviceView|
            #![trigger views(final(v)@).contains(x)]
            #![trigger views(old(v)@).contains(x)]
            views(final(v)@).contains(x) <==> (views(old(v)@).contains(x) || x == d@),
{
    let ghost ov = views(old(v)@);
    let ghost dv = d@;
    proof {
        lemma_lex_lt_irrefl(dv.name);
    }
    let i = insert_pos(v, d.name.as_str());
    if i < v.len() && str_eq(v[i].name.as_str(), d.name.as_str()) {
        proof {
            assert(ov[i as int] == dv);
            assert(ov.contains(dv));
        }
        return ;
    }
    proof {
        if i < v@.len() && !lex_lt(dv.name, ov[i as int].name) {
            lemma_lex_lt_connected(ov[i as int].name, dv.name);
            assert(false);
        }
    }
    v.insert(i, d);
    let ghost nv = views(v@);
    proof {
        assert(forall|k: int| 0 <= k < i ==> nv[k] == ov[k]);
        assert(nv[i as int] == dv);
        assert(forall|k: int| i < k < nv.len() ==> nv[k] == ov[k - 1]);
        assert forall|p: int, q: int| 0 <= p < q < nv.len() implies lex_lt(
            nv[p].name,
            nv[q].name,
        ) by {
            if p < i && q == i {
            } else if p == i && q > i {
                if q - 1 > i {
                    lemma_lex_lt_trans(dv.name, ov[i as int].name, ov[q - 1].name);
                }
            } else if p < i && q > i {
                if q - 1 > p {
                } else {
                    assert(q - 1 == p);
                    assert(p < i && i <= q - 1);
                    assert(false);
                }
            }
        }
        assert forall|x: DeviceView| nv.contains(x) implies (ov.contains(x) || x == dv) by {
            let k = choose|k: int| 0 <= k < nv.len() && nv[k] == x;
            if k != i {
                let ghost k0 = if k < i {
                    k
                } else {
                    k - 1
                };
                assert(ov[k0] == x);
                assert(ov.contains(x));
            }
        }
        assert forall|x: DeviceView| (ov.contains(x) || x == dv) implies nv.contains(x) by {
            if x == dv {
                assert(nv[i as int] == x);
            } else {
                let k = choose|k: int| 0 <= k < ov.len() && ov[k] == x;
                if k < i {
                    assert(nv[k] == x);
                } else {
                    assert(nv[k + 1] == x);
                }
            }
        }
    }
}

/// Builds one class map from a listing: every entry taking part is
/// validated, the first failure aborts the scan, and the valid entries
/// become plain devices in a map sorted by name.
fn scan_class(class: Class, entries: &Vec<ScanEntry>) -> (r: Result<Vec<Device>, Error>)
    ensures
        match r {
            Ok(v) => scan_ok(entries@) && names_sorted(views(v@)) && forall|x: DeviceView|
                #![trigger views(v@).contains(x)]
                views(v@).contains(x) <==> from_entries(class, entries@, x),
            Err(e) => !scan_ok(entries@) && (e matches Error::AttributeUnreadable(t) && t@
                == entries@[first_bad(entries@)].name@),
        },
{
    let mut out: Vec<Device> = Vec::new();
    let mut i: usize = 0;
    while i < entries.len()
        invariant
            i <= entries@.len(),
            forall|j: int|
                0 <= j < i ==> (entry_considered(#[trigger] entries@[j]) ==> entry_ok(
                    entries@[j],
                )),
            names_sorted(views(out@)),
            forall|x: DeviceView|
                #![trigger views(out@).contains(x)]
                views(out@).contains(x) <==> from_entries(class, entries@.take(i as int), x),
        decreases entries@.len() - i,
    {
        let e = &entries[i];
        let ghost pre = entries@.take(i as int);
        let ghost post = entries@.take(i + 1);
        proof {
            assert(forall|k: int| 0 <= k < post.len() ==> post[k] == entries@[k]);
        }
        if !str_eq(e.name.as_str(), "auto") {
            if e.brightness.is_none() || e.max_brightness.is_none() {
                proof {
                    lemma_first_bad(entries@);
                    let fb = first_bad(entries@);
                    if fb < i {
                        assert(entry_considered(entries@[fb]) && !entry_ok(entries@[fb]));
                        assert(false);
                    }
                    if fb > i {
                        assert(entry_considered(entries@[i as int]) ==> entry_ok(
                            entries@[i as int],
                        ));
                        assert(false);
                    }
                }
                return Err(Error::AttributeUnreadable(e.name.clone()));
            }
            let d = Device { class, name: e.name.clone(), real_name: None };
            proof {
                assert(d@ =~= plain_view(class, entries@[i as int].name@));
                assert forall|k: int|
                    0 <= k < out@.len() && (#[trigger] views(out@)[k]).name == d@.name implies views(
                    out@,
                )[k] == d@ by {
                    let x = views(out@)[k];
                    assert(views(out@).contains(x));
                    assert(from_entries(class, pre, x));
                    let kk = choose|kk: int|
                        0 <= kk < pre.len() && entry_considered(#[trigger] pre[kk]) && x
                            == plain_view(class, pre[kk].name@);
                    assert(x =~= d@);
                }
            }
            let ghost before = views(out@);
            insert_sorted(&mut out, d);
            proof {
                assert forall|x: DeviceView|
                    #![trigger views(out@).contains(x)]
                    views(out@).contains(x) <==> from_entries(class, post, x) by {
                    if views(out@).contains(x) {
                        if x == d@ {
                            assert(entry_considered(post[i as int]) && x == plain_view(
                                class,
                                post[i as int].name@,
                            ));
                            assert(from_entries(class, post, x));
                        } else {
                            assert(before.contains(x));
                            assert(from_entries(class, pre, x));
                            let kk = choose|kk: int|
                                0 <= kk < pre.len() && entry_considered(#[trigger] pre[kk]) && x
                                    == plain_view(class, pre[kk].name@);
                            assert(entry_considered(post[kk]) && x == plain_view(
                                class,
                                post[kk].name@,
                            ));
                            assert(from_entries(class, post, x));
                        }
                    }
                    if from_entries(class, post, x) {
                        let kk = choose|kk: int|
                            0 <= kk < post.len() && entry_considered(#[trigger] post[kk]) && x
                                == plain_view(class, post[kk].name@);
                        if kk < i {
                            assert(entry_considered(pre[kk]) && x == plain_view(
                                class,
                                pre[kk].name@,
                            ));
                            assert(from_entries(class, pre, x));
                            assert(before.contains(x));
                            assert(views(out@).contains(x));
                        } else {
                            assert(x =~= d@);
                            assert(views(out@).contains(x));
                        }
                    }
                }
            }
        } else {
            proof {
                assert forall|x: DeviceView|
                    #![trigger views(out@).contains(x)]
                    views(out@).contains(x) <==> from_entries(class, post, x) by {
                    if views(out@).contains(x) {
                        assert(from_entries(class, pre, x));
                        let kk = choose|kk: int|
                            0 <= kk < pre.len() && entry_considered(#[trigger] pre[kk]) && x
                                == plain_view(class, pre[kk].name@);
                        assert(entry_considered(post[kk]) && x == plain_view(
                            class,
                            post[kk].name@,
                        ));
                        assert(from_entries(class, post, x));
                    }
                    if from_entries(class, post, x) {
                        let kk = choose|kk: int|
                            0 <= kk < post.len() && entry_considered(#[trigger] post[kk]) && x
                                == plain_view(class, post[kk].name@);
                        assert(kk != i);
                        assert(entry_considered(pre[kk]) && x == plain_view(class, pre[kk].name@));
                        assert(from_entries(class, pre, x));
                    }
                }
            }
        }
        i += 1;
    }
    proof {
        assert(entries@.take(entries@.len() as int) =~= entries@);
        lemma_first_bad(entries@);
        let fb = first_bad(entries@);
        if fb < entries@.len() {
            assert(entry_considered(entries@[fb]) ==> entry_ok(entries@[fb]));
            assert(false);
        }
    }
    Ok(out)
}

/// Builds the backlight map: the scanned devices plus, when any of them
/// has a positive maximum brightness, the synthetic `auto` alias
/// resolving to the best one.
fn scan_backlights(entries: &Vec<ScanEntry>) -> (r: Result<Vec<Device>, Error>)
    ensures
        match r {
            Ok(v) => scan_ok(entries@) && names_sorted(views(v@)) && forall|x: DeviceView|
                #![trigger views(v@).contains(x)]
                views(v@).contains(x) <==> (from_entries(Class::Backlight, entries@, x) || (
                auto_real_name(entries@) matches Some(n) && x == auto_view(n))),
            Err(e) => !scan_ok(entries@) && (e matches Error::AttributeUnreadable(t) && t@
                == entries@[first_bad(entries@)].name@),
        },
{
    let mut out = match scan_class(Class::Backlight, entries) {
        Ok(v) => v,
        Err(e) => return Err(e),
    };
    let mut best: u32 = 0;
    let mut best_name: Option<String> = None;
    let mut i: usize = 0;
    while i < entries.len()
        invariant
            i <= entries@.len(),
            best == best_value(entries@.take(i as int)),
            match best_name {
                Some(s) => auto_real_name(entries@.take(i as int)) == Some(s@),
                None => auto_real_name(entries@.take(i as int)) is None,
            },
        decreases entries@.len() - i,
    {
        let e = &entries[i];
        proof {
            assert(entries@.take(i + 1).drop_last() =~= entries@.take(i as int));
            assert(entries@.take(i + 1).last() == entries@[i as int]);
        }
        if !str_eq(e.name.as_str(), "auto") {
            let m = match &e.max_brightness {
                Some(v) => *v,
                None => 0,
            };
            if m > best {
                best = m;
                best_name = Some(e.name.clone());
            }
        }
        i += 1;
    }
    proof {
        assert(entries@.take(entries@.len() as int) =~= entries@);
    }
    match best_name {
        Some(n) => {
            let ghost target = n@;
            let ghost before = views(out@);
            let alias = Device {
                class: Class::Backlight,
                name: "auto".to_owned(),
                real_name: Some(n),
            };
            proof {
                assert(alias@ =~= auto_view(target));
                assert forall|k: int|
                    0 <= k < out@.len() && (#[trigger] views(out@)[k]).name == alias@.name implies views(
                    out@,
                )[k] == alias@ by {
                    let x = views(out@)[k];
                    assert(views(out@).contains(x));
                    assert(from_entries(Class::Backlight, entries@, x));
                    let kk = choose|kk: int|
                        0 <= kk < entries@.len() && entry_considered(#[trigger] entries@[kk]) && x
                            == plain_view(Class::Backlight, entries@[kk].name@);
                    assert(false);
                }
            }
            insert_sorted(&mut out, alias);
            proof {
                assert forall|x: DeviceView|
                    #![trigger views(out@).contains(x)]
                    views(out@).contains(x) <==> (from_entries(Class::Backlight, entries@, x) || (
                auto_real_name(entries@) matches Some(nm) && x == auto_view(nm))) by {
                    assert(views(out@).contains(x) <==> (before.contains(x) || x == alias@));
                }
            }
            Ok(out)
        },
        None => Ok(out),
    }
}

/// Holds the devices of both classes: one ordered mapping from name to
/// device per class, keyed by on-disk name plus the synthetic `auto`
/// key for backlights, rebuilt wholly on every scan.
pub struct Enumerator {
    backlights: Vec<Device>,
    leds: Vec<Device>,
}

/// Finds the device of this name, if the map holds one.
fn find_by_name(v: &Vec<Device>, name: &str) -> (r: Option<usize>)
    ensures
        match r {
            Some(i) => i < v@.len() && views(v@)[i as int].name == name@,
            None => forall|k: int|
                0 <= k < v@.len() ==> (#[trigger] views(v@)[k]).name != name@,
        },
{
    let mut i: usize = 0;
    while i < v.len()
        invariant
            i <= v@.len(),
            forall|k: int| 0 <= k < i ==> (#[trigger] views(v@)[k]).name != name@,
        decreases v@.len() - i,
    {
        if str_eq(v[i].name.as_str(), name) {
            return Some(i);
        }
        i += 1;
    }
    None
}

/// Resolves a name in one class map: the device under that name, or the
/// error the name owes — `auto` is owed only where the alias exists,
/// any other absent name means the device could not be validated.
fn lookup(col: &Vec<Device>, name: &str) -> (r: Result<Device, Error>)
    ensures
        match r {
            Ok(d) => has_name(views(col@), name@) && views(col@).contains(d@) && d@.name == name@,
            Err(e) => !has_name(views(col@), name@) && (if name@ == "auto"@ {
                e is NoDeviceFound
            } else {
                e matches Error::AttributeUnreadable(t) && t@ == name@
            }),
        },
{
    match find_by_name(col, name) {
        Some(i) => {
            let d = col[i].clone();
            proof {
                assert(views(col@)[i as int] == d@);
                assert(views(col@).contains(d@));
            }
            Ok(d)
        },
        None => {
            if str_eq(name, "auto") {
                Err(Error::NoDeviceFound)
            } else {
                Err(Error::AttributeUnreadable(name.to_owned()))
            }
        },
    }
}

impl Enumerator {
    /// The backlight map's contents, in map order.
    pub closed spec fn backlight_views(&self) -> Seq<DeviceView> {
        views(self.backlights@)
    }

    /// The LED map's contents, in map order.
    pub closed spec fn led_views(&self) -> Seq<DeviceView> {
        views(self.leds@)
    }

    /// Both maps are strictly sorted by name and hold well-formed
    /// devices of their own class.
    pub closed spec fn wf(&self) -> bool {
        names_sorted(self.backlight_views()) && names_sorted(self.led_views()) && (forall|k: int|
            0 <= k < self.backlight_views().len() ==> (#[trigger] self.backlight_views()[k]).class
                == Class::Backlight && self.backlight_views()[k].wf()) && (forall|k: int|
            0 <= k < self.led_views().len() ==> (#[trigger] self.led_views()[k]).class
                == Class::Leds && self.led_views()[k].wf())
    }

    /// A fresh enumerator with empty maps.
    pub fn new() -> (r: Self)
        ensures
            r.wf(),
            r.backlight_views().len() == 0,
            r.led_views().len() == 0,
    {
        Enumerator { backlights: Vec::new(), leds: Vec::new() }
    }

    /// Rebuilds both maps from fresh listings, backlights first. A
    /// failing entry aborts the whole scan with the device it names,
    /// and the maps are then left as they were: never a partial update.
    /// On success the backlight map holds one device per valid entry
    /// plus the `auto` alias whenever some backlight has a positive
    /// maximum, and the LED map one device per valid entry.
    pub fn scan(&mut self, backlights: &Vec<ScanEntry>, leds: &Vec<ScanEntry>) -> (r: Result<
        (),
        Error,
    >)
        ensures
            match r {
                Ok(_) => scan_ok(backlights@) && scan_ok(leds@) && final(self).wf() && (forall|
                    x: DeviceView,
                |
                    #![trigger final(self).backlight_views().contains(x)]
                    final(self).backlight_views().contains(x) <==> (from_entries(
                        Class::Backlight,
                        backlights@,
                        x,
                    ) || (auto_real_name(backlights@) matches Some(n) && x == auto_view(n)))) && (
                forall|x: DeviceView|
                    #![trigger final(self).led_views().contains(x)]
                    final(self).led_views().contains(x) <==> from_entries(Class::Leds, leds@, x))
                    && (auto_real_name(backlights@) matches Some(n)
                    ==> final(self).backlight_views().contains(
                        plain_view(Class::Backlight, n),
                    )),
                Err(e) => final(self).backlight_views() == old(self).backlight_views()
                    && final(self).led_views() == old(self).led_views() && (!scan_ok(backlights@)
                    || !scan_ok(leds@)) && (e matches Error::AttributeUnreadable(t) && (if !scan_ok(
                    backlights@,
                ) {
                    t@ == backlights@[first_bad(backlights@)].name@
                } else {
                    t@ == leds@[first_bad(leds@)].name@
                })),
            },
    {
        let bl = match scan_backlights(backlights) {
            Ok(v) => v,
            Err(e) => return Err(e),
        };
        let ld = match scan_class(Class::Leds, leds) {
            Ok(v) => v,
            Err(e) => return Err(e),
        };
        self.backlights = bl;
        self.leds = ld;
        proof {
            if auto_real_name(backlights@) is Some {
                let n = auto_real_name(backlights@).unwrap();
                lemma_auto_selection(backlights@);
                let i = choose|i: int|
                    0 <= i < backlights@.len() && entry_considered(#[trigger] backlights@[i])
                        && backlights@[i].name@ == n && entry_max(backlights@[i]) == best_value(
                        backlights@,
                    );
                assert(from_entries(
                    Class::Backlight,
                    backlights@,
                    plain_view(Class::Backlight, n),
                ));
            }
            assert forall|k: int|
                0 <= k < self.backlight_views().len() implies (
            #[trigger] self.backlight_views()[k]).class == Class::Backlight
                && self.backlight_views()[k].wf() by {
                let x = self.backlight_views()[k];
                assert(self.backlight_views().contains(x));
                if from_entries(Class::Backlight, backlights@, x) {
                    let kk = choose|kk: int|
                        0 <= kk < backlights@.len() && entry_considered(
                            #[trigger] backlights@[kk],
                        ) && x == plain_view(Class::Backlight, backlights@[kk].name@);
                }
            }
            assert forall|k: int|
                0 <= k < self.led_views().len() implies (#[trigger] self.led_views()[k]).class
                == Class::Leds && self.led_views()[k].wf() by {
                let x = self.led_views()[k];
                assert(self.led_views().contains(x));
                let kk = choose|kk: int|
                    0 <= kk < leds@.len() && entry_considered(#[trigger] leds@[kk]) && x
                        == plain_view(Class::Leds, leds@[kk].name@);
            }
        }
        Ok(())
    }

    /// The default backlight: the `auto` alias when one exists, else
    /// the lexicographically first backlight — the map's first entry —
    /// and an error when there is no backlight at all.
    pub fn get_default_device(&self) -> (r: Result<Device, Error>)
        requires
            self.wf(),
        ensures
            match r {
                Ok(d) => self.backlight_views().contains(d@) && (if has_name(
                    self.backlight_views(),
                    "auto"@,
                ) {
                    d@.name == "auto"@
                } else {
                    self.backlight_views().len() > 0 && d@ == self.backlight_views()[0]
                }),
                Err(e) => e is NoDeviceFound && self.backlight_views().len() == 0,
            },
    {
        match find_by_name(&self.backlights, "auto") {
            Some(i) => {
                let d = self.backlights[i].clone();
                proof {
                    assert(views(self.backlights@)[i as int] == d@);
                    assert(self.backlight_views().contains(d@));
                }
                Ok(d)
            },
            None => {
                if self.backlights.len() > 0 {
                    let d = self.backlights[0].clone();
                    proof {
                        assert(views(self.backlights@)[0] == d@);
                        assert(self.backlight_views().contains(d@));
                    }
                    Ok(d)
                } else {
                    Err(Error::NoDeviceFound)
                }
            },
        }
    }

    /// Resolves a selector against the maps: parses it per the grammar
    /// of `selector_spec`, then looks the name up in the selected
    /// class's map.
    pub fn get_named_device(&self, selector: &str) -> (r: Result<Device, Error>)
        requires
            self.wf(),
        ensures
            match selector_spec(selector@) {
                None => r matches Err(e) && (e matches Error::InvalidSelector(t) && t@
                    == selector@),
                Some(p) => {
                    let col = if p.0 is Backlight {
                        self.backlight_views()
                    } else {
                        self.led_views()
                    };
                    match r {
                        Ok(d) => has_name(col, p.1) && col.contains(d@) && d@.name == p.1,
                        Err(e) => !has_name(col, p.1) && (if p.1 == "auto"@ {
                            e is NoDeviceFound
                        } else {
                            e matches Error::AttributeUnreadable(t) && t@ == p.1
                        }),
                    }
                },
            },
    {
        let (class, name) = match parse_selector(selector) {
            Ok(p) => p,
            Err(e) => return Err(e),
        };
        match class {
            Class::Backlight => lookup(&self.backlights, name.as_str()),
            Class::Leds => lookup(&self.leds, name.as_str()),
        }
    }

    /// All devices, backlights first, each map in its name order.
    pub fn list(&self) -> (r: Vec<Device>)
        ensures
            views(r@) == self.backlight_views() + self.led_views(),
    {
        let mut r: Vec<Device> = Vec::new();
        let mut i: usize = 0;
        while i < self.backlights.len()
            invariant
                i <= self.backlights@.len(),
                views(r@) == self.backlight_views().take(i as int),
            decreases self.backlights@.len() - i,
        {
            let ghost r0 = r@;
            proof {
                assert(views(r0).len() == i);
                assert(r0.len() == i);
            }
            r.push(self.backlights[i].clone());
            proof {
                assert(r@.len() == i + 1);
                assert forall|k: int|
                    0 <= k < i + 1 implies #[trigger] views(r@)[k] == self.backlight_views().take(
                    i + 1,
                )[k] by {
                    if k < i {
                        assert(r@[k] == r0[k]);
                        assert(views(r0)[k] == self.backlight_views().take(i as int)[k]);
                    }
                }
                assert(views(r@) =~= self.backlight_views().take(i + 1));
            }
            i += 1;
        }
        proof {
            assert(self.backlight_views().take(i as int) =~= self.backlight_views());
            assert(views(r@) =~= self.backlight_views() + self.led_views().take(0));
        }
        let mut j: usize = 0;
        while j < self.leds.len()
            invariant
                j <= self.leds@.len(),
                views(r@) == self.backlight_views() + self.led_views().take(j as int),
            decreases self.leds@.len() - j,
        {
            let ghost r0 = r@;
            proof {
                assert(views(r0).len() == r0.len());
            }
            r.push(self.leds[j].clone());
            proof {
                assert(r@.len() == r0.len() + 1);
                let ghost goal = self.backlight_views() + self.led_views().take(j + 1);
                assert forall|k: int| 0 <= k < r@.len() implies #[trigger] views(r@)[k]
                    == goal[k] by {
                    if k < r0.len() {
                        assert(r@[k] == r0[k]);
                        assert(views(r0)[k] == (self.backlight_views() + self.led_views().take(
                            j as int,
                        ))[k]);
                    }
                }
                assert(views(r@) =~= goal);
            }
            j += 1;
        }
        proof {
            assert(self.backlight_views() + self.led_views().take(j as int)
                =~= self.backlight_views() + self.led_views());
        }
        r
    }
}

/// The index of the first `/` in the sequence, or its length when no
/// `/` occurs.
pub open spec fn slash_idx(s: Seq<char>) -> int
    decreases s.len(),
{
    if s.len() == 0 {
        0
    } else if s[0] == '/' {
        0
    } else {
        1 + slash_idx(s.skip(1))
    }
}

fn find_slash(s: &str) -> (i: usize)
    ensures
        i == slash_idx(s@),
        i <= s@.len(),
    decreases s@.len(),
{
    let n = s.unicode_len();
    if n == 0 {
        0
    } else if s.get_char(0) == '/' {
        0
    } else {
        let rest = s.substring_char(1, n);
        proof {
            assert(rest@ =~= s@.skip(1));
        }
        1 + find_slash(rest)
    }
}

/// The selector grammar `[class "/"] name`: no `/` means the backlight
/// class; the class part must name a known class; the reserved name
/// `auto` is valid only under the backlight class.
pub open spec fn selector_spec(s: Seq<char>) -> Option<(Class, Seq<char>)> {
    let idx = slash_idx(s);
    let cls = if idx == s.len() {
        "backlight"@
    } else {
        s.take(idx)
    };
    let name = if idx == s.len() {
        s
    } else {
        s.skip(idx + 1)
    };
    if cls == "backlight"@ {
        Some((Class::Backlight, name))
    } else if cls == "leds"@ {
        if name == "auto"@ {
            None
        } else {
            Some((Class::Leds, name))
        }
    } else {
        None
    }
}

/// Parses a device selector into its class and name, per
/// `selector_spec`; malformed or reserved selectors are surfaced as
/// invalid.
pub fn parse_selector(s: &str) -> (r: Result<(Class, String), Error>)
    ensures
        match selector_spec(s@) {
            Some(p) => r matches Ok(q) && q.0 == p.0 && q.1@ == p.1,
            None => r matches Err(e) && (e matches Error::InvalidSelector(t) && t@ == s@),
        },
{
    let n = s.unicode_len();
    let idx = find_slash(s);
    if idx == n {
        Ok((Class::Backlight, s.to_owned()))
    } else {
        let cls = s.substring_char(0, idx);
        let name = s.substring_char(idx + 1, n);
        proof {
            assert(cls@ =~= s@.take(idx as int));
            assert(name@ =~= s@.skip(idx + 1));
        }
        if str_eq(cls, "backlight") {
            Ok((Class::Backlight, name.to_owned()))
        } else if str_eq(cls, "leds") {
            if str_eq(name, "auto") {
                Err(Error::InvalidSelector(s.to_owned()))
            } else {
                Ok((Class::Leds, name.to_owned()))
            }
        } else {
            Err(Error::InvalidSelector(s.to_owned()))
        }
    }
}

/// Resolves a selector the way the command line does: the reserved name
/// `auto` falls back to the default backlight, every other name is
/// looked up in the selected class's map.
pub fn parse_device(enumerator: &Enumerator, selector: &str) -> (r: Result<Device, Error>)
    requires
        enumerator.wf(),
    ensures
        match selector_spec(selector@) {
            None => r matches Err(e) && (e matches Error::InvalidSelector(t) && t@ == selector@),
            Some(p) => if p.1 == "auto"@ {
                match r {
                    Ok(d) => enumerator.backlight_views().contains(d@) && (if has_name(
                        enumerator.backlight_views(),
                        "auto"@,
                    ) {
                        d@.name == "auto"@
                    } else {
                        enumerator.backlight_views().len() > 0 && d@
                            == enumerator.backlight_views()[0]
                    }),
                    Err(e) => e is NoDeviceFound && enumerator.backlight_views().len() == 0,
                }
            } else {
                {
                    let col = if p.0 is Backlight {
                        enumerator.backlight_views()
                    } else {
                        enumerator.led_views()
                    };
                    match r {
                        Ok(d) => has_name(col, p.1) && col.contains(d@) && d@.name == p.1,
                        Err(e) => !has_name(col, p.1) && (e matches Error::AttributeUnreadable(t)
                            && t@ == p.1),
                    }
                }
            },
        },
{
    let (class, name) = match parse_selector(selector) {
        Ok(p) => p,
        Err(e) => return Err(e),
    };
    if str_eq(name.as_str(), "auto") {
        enumerator.get_default_device()
    } else {
        match class {
            Class::Backlight => lookup(&enumerator.backlights, name.as_str()),
            Class::Leds => lookup(&enumerator.leds, name.as_str()),
        }
    }
}

} // verus!
