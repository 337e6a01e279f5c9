//! Deterministic Node execution context.

use vstd::prelude::*;

use crate::error::ContextError;
use crate::text::{ascii_upper, chars_of, eq_ignore_ascii_case, eq_ignore_ascii_case_exec, is_ascii_alpha};

verus! {

/// The platform on which Node semantics are being evaluated.
#[derive(Clone, Copy, Debug, PartialEq, Eq, Structural)]
pub enum NodeHost {
    Win32,
    Darwin,
    OtherPosix,
}

/// A snapshot of Node's hidden per-drive current-directory state.
#[derive(Clone, Debug, PartialEq, Eq)]
pub struct DriveCwd {
    pub device: String,
    pub cwd: String,
}

/// A drive key: one ASCII letter followed by `:`.
pub open spec fn valid_device(d: Seq<char>) -> bool {
    d.len() == 2 && is_ascii_alpha(d[0]) && d[1] == ':'
}

/// Whether the drive at `i` is rejected: malformed, or equal under ASCII case folding to an
/// earlier drive.
pub open spec fn drive_rejected(devices: Seq<Seq<char>>, i: int) -> bool {
    !valid_device(devices[i]) || exists|j: int|
        0 <= j < i && ascii_upper(#[trigger] devices[j][0]) == ascii_upper(devices[i][0])
}

/// Index of the first rejected drive at or after `i`, or -1.
pub open spec fn first_rejected_drive(devices: Seq<Seq<char>>, i: int) -> int
    decreases devices.len() - i,
{
    if i < 0 || i >= devices.len() {
        -1
    } else if drive_rejected(devices, i) {
        i
    } else {
        first_rejected_drive(devices, i + 1)
    }
}

/// The device keys of a drive list.
pub open spec fn devices_of(drives: Seq<DriveCwd>) -> Seq<Seq<char>> {
    Seq::new(drives.len(), |i: int| drives[i].device@)
}

/// The drive list as (device, cwd) pairs of character sequences.
pub open spec fn drive_pairs(drives: Seq<DriveCwd>) -> Seq<(Seq<char>, Seq<char>)> {
    Seq::new(drives.len(), |i: int| (drives[i].device@, drives[i].cwd@))
}

/// The cwd of the first drive whose device equals `device` under ASCII case folding.
pub open spec fn drive_lookup(drives: Seq<(Seq<char>, Seq<char>)>, device: Seq<char>, i: int) -> Option<
    Seq<char>,
>
    decreases drives.len() - i,
{
    if i < 0 || i >= drives.len() {
        None
    } else if eq_ignore_ascii_case(drives[i].0, device) {
        Some(drives[i].1)
    } else {
        drive_lookup(drives, device, i + 1)
    }
}

/// An environment variable name under which Windows keeps the cwd of a drive: `=`, one ASCII
/// letter, and `:`.
pub open spec fn drive_env_key(k: Seq<char>) -> bool {
    k.len() == 3 && k[0] == '=' && is_ascii_alpha(k[1]) && k[2] == ':'
}

/// The (device, cwd) pairs that the environment variables `vars` record, in order.
pub open spec fn env_drive_pairs(vars: Seq<(String, String)>) -> Seq<(Seq<char>, Seq<char>)>
    decreases vars.len(),
{
    if vars.len() == 0 {
        Seq::empty()
    } else {
        let prev = env_drive_pairs(vars.drop_last());
        let k = vars.last().0@;
        if drive_env_key(k) {
            prev.push((k.skip(1), vars.last().1@))
        } else {
            prev
        }
    }
}

/// The per-drive cwds recorded in a snapshot of the environment variables: each variable named
/// `=X:` gives the cwd of drive `X:`; all others are ignored.
pub fn drive_cwds_from_env(vars: &Vec<(String, String)>) -> (r: Vec<DriveCwd>)
    ensures
        drive_pairs(r@) == env_drive_pairs(vars@),
{
    let mut out: Vec<DriveCwd> = Vec::new();
    let mut i: usize = 0;
    while i < vars.len()
        invariant
            i <= vars.len(),
            drive_pairs(out@) == env_drive_pairs(vars@.take(i as int)),
        decreases vars.len() - i,
    {
        assert(vars@.take(i + 1).drop_last() =~= vars@.take(i as int));
        let key = chars_of(vars[i].0.as_str());
        if key.len() == 3 && key[0] == '=' && crate::text::is_ascii_alpha_exec(key[1]) && key[2]
            == ':' {
            let device = crate::text::slice_chars(vars[i].0.as_str(), 1, 3).to_owned();
            proof {
                assert(device@ =~= vars@[i as int].0@.skip(1));
            }
            let ghost before = out@;
            out.push(DriveCwd { device, cwd: vars[i].1.clone() });
            assert(drive_pairs(out@) =~= drive_pairs(before).push(
                (vars@[i as int].0@.skip(1), vars@[i as int].1@),
            ));
        }
        i = i + 1;
    }
    assert(vars@.take(vars.len() as int) =~= vars@);
    out
}

/// Immutable environment inputs used by context-dependent path operations.
#[derive(Clone, Debug, PartialEq, Eq)]
pub struct PathContext {
    host: NodeHost,
    cwd: String,
    drive_cwds: Vec<DriveCwd>,
}

impl PathContext {
    /// The host of the context.
    pub closed spec fn spec_host(&self) -> NodeHost {
        self.host
    }

    /// The current directory of the context.
    pub closed spec fn spec_cwd(&self) -> Seq<char> {
        self.cwd@
    }

    /// The per-drive current directories, as (device, cwd) pairs.
    pub closed spec fn spec_drives(&self) -> Seq<(Seq<char>, Seq<char>)> {
        drive_pairs(self.drive_cwds@)
    }

    /// Every drive key is well formed and no two are equal under ASCII case folding.
    pub closed spec fn wf(&self) -> bool {
        first_rejected_drive(devices_of(self.drive_cwds@), 0) == -1
    }

    /// Constructs and validates a context without reading process state. The first drive (in
    /// order) that is malformed or repeats an earlier drive letter is reported.
    pub fn new(host: NodeHost, cwd: &str, drive_cwds: Vec<DriveCwd>) -> (r: Result<
        Self,
        ContextError,
    >)
        ensures
            ({
                let k = first_rejected_drive(devices_of(drive_cwds@), 0);
                match r {
                    Ok(c) => k == -1 && c.wf() && c.spec_host() == host && c.spec_cwd() == cwd@
                        && c.spec_drives() == drive_pairs(drive_cwds@),
                    Err(ContextError::InvalidDriveDevice(d)) => k >= 0 && !valid_device(
                        drive_cwds@[k].device@,
                    ) && d@ == drive_cwds@[k].device@,
                    Err(ContextError::DuplicateDriveDevice(d)) => k >= 0 && valid_device(
                        drive_cwds@[k].device@,
                    ) && d@ == drive_cwds@[k].device@,
                    Err(_) => false,
                }
            }),
    {
        let ghost devs = devices_of(drive_cwds@);
        let mut letters: Vec<char> = Vec::new();
        let mut i: usize = 0;
        while i < drive_cwds.len()
            invariant
                devs == devices_of(drive_cwds@),
                i <= drive_cwds.len(),
                letters@.len() == i,
                forall|j: int| 0 <= j < i ==> letters@[j] == ascii_upper(#[trigger] devs[j][0]),
                first_rejected_drive(devs, 0) == first_rejected_drive(devs, i as int),
            decreases drive_cwds.len() - i,
        {
            let dev = chars_of(drive_cwds[i].device.as_str());
            assert(dev@ == devs[i as int]);
            if dev.len() != 2 || !crate::text::is_ascii_alpha_exec(dev[0]) || dev[1] != ':' {
                return Err(ContextError::InvalidDriveDevice(drive_cwds[i].device.clone()));
            }
            let c = dev[0];
            let folded = if 'a' <= c && c <= 'z' {
                (((c as u32) - 32) as u8) as char
            } else {
                c
            };
            assert(folded == ascii_upper(devs[i as int][0]));
            let mut j: usize = 0;
            while j < i
                invariant
                    devs == devices_of(drive_cwds@),
                    j <= i,
                    i < drive_cwds.len(),
                    letters@.len() == i,
                    folded == ascii_upper(devs[i as int][0]),
                    valid_device(devs[i as int]),
                    first_rejected_drive(devs, 0) == first_rejected_drive(devs, i as int),
                    forall|m: int| 0 <= m < i ==> letters@[m] == ascii_upper(#[trigger] devs[m][0]),
                    forall|m: int| 0 <= m < j ==> letters@[m] != folded,
                decreases i - j,
            {
                if letters[j] == folded {
                    assert(drive_rejected(devs, i as int)) by {
                        assert(ascii_upper(devs[j as int][0]) == ascii_upper(devs[i as int][0]));
                    }
                    return Err(ContextError::DuplicateDriveDevice(drive_cwds[i].device.clone()));
                }
                j = j + 1;
            }
            assert(!drive_rejected(devs, i as int)) by {
                if drive_rejected(devs, i as int) {
                    let m = choose|m: int|
                        0 <= m < i && ascii_upper(#[trigger] devs[m][0]) == ascii_upper(
                            devs[i as int][0],
                        );
                    assert(letters@[m] == ascii_upper(devs[m][0]));
                }
            }
            letters.push(folded);
            i = i + 1;
        }
        let cwd_owned = cwd.to_owned();
        Ok(PathContext { host, cwd: cwd_owned, drive_cwds })
    }

    /// The host of the context.
    pub fn host(&self) -> (r: NodeHost)
        ensures
            r == self.spec_host(),
    {
        self.host
    }

    /// The current directory of the context.
    pub fn cwd(&self) -> (r: &str)
        ensures
            r@ == self.spec_cwd(),
    {
        self.cwd.as_str()
    }

    /// The per-drive current directories, in construction order.
    pub fn drive_cwds(&self) -> (r: &[DriveCwd])
        ensures
            drive_pairs(r@) == self.spec_drives(),
    {
        self.drive_cwds.as_slice()
    }

    /// The cwd recorded for `device`, matched under ASCII case folding.
    pub fn drive_cwd(&self, device: &str) -> (r: Option<&str>)
        ensures
            match r {
                Some(s) => drive_lookup(self.spec_drives(), device@, 0) == Some(s@),
                None => drive_lookup(self.spec_drives(), device@, 0) is None,
            },
    {
        let d = chars_of(device);
        self.drive_cwd_chars(&d)
    }

    /// The cwd recorded for the device given as characters.
    pub(crate) fn drive_cwd_chars(&self, device: &[char]) -> (r: Option<&str>)
        ensures
            match r {
                Some(s) => drive_lookup(self.spec_drives(), device@, 0) == Some(s@),
                None => drive_lookup(self.spec_drives(), device@, 0) is None,
            },
    {
        let ghost pairs = self.spec_drives();
        let mut i: usize = 0;
        while i < self.drive_cwds.len()
            invariant
                pairs == self.spec_drives(),
                pairs == drive_pairs(self.drive_cwds@),
                i <= self.drive_cwds.len(),
                drive_lookup(pairs, device@, 0) == drive_lookup(pairs, device@, i as int),
            decreases self.drive_cwds.len() - i,
        {
            let dev = chars_of(self.drive_cwds[i].device.as_str());
            if eq_ignore_ascii_case_exec(&dev, device) {
                return Some(self.drive_cwds[i].cwd.as_str());
            }
            i = i + 1;
        }
        None
    }
}

} // verus!
