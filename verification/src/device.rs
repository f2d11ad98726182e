//! The device's identity.
//!
//! Out of the parsed info dictionary the updater needs two things: the
//! hardware name under `hw`, and the software version under `sw` with
//! every `build-` removed, so that what is left is the bare build
//! number.

use vstd::prelude::*;
use vstd::string::StringSliceAdditionalSpecFns;

use crate::info::InfoDict;

verus! {

/// The device's name and software version string.
#[derive(Debug)]
pub struct DeviceInfo {
    pub device_name: String,
    pub software_version: String,
}

/// `s` with every occurrence of `build-` removed, scanning left to right.
pub open spec fn spec_strip_build(s: Seq<char>) -> Seq<char>
    decreases s.len(),
{
    if s.len() >= 6 && s.subrange(0, 6) == "build-"@ {
        spec_strip_build(s.skip(6))
    } else if s.len() == 0 {
        s
    } else {
        seq![s[0]] + spec_strip_build(s.skip(1))
    }
}

/// Removes every `build-` from a string, scanning left to right.
#[verifier::loop_isolation(false)]
#[verifier::rlimit(80)]
pub fn strip_build(s: &str) -> (r: String)
    ensures
        r@ == spec_strip_build(s@),
{
    let n = s.unicode_len();
    let mut r = String::new();
    let mut i: usize = 0;
    proof {
        reveal_strlit("build-");
        assert(s@.skip(0) =~= s@);
    }
    while i < n
        invariant
            i <= n == s@.len(),
            spec_strip_build(s@) == r@ + spec_strip_build(s@.skip(i as int)),
        decreases n - i,
    {
        let ghost rest = s@.skip(i as int);
        if n - i >= 6 && s.get_char(i) == 'b' && s.get_char(i + 1) == 'u' && s.get_char(i + 2)
            == 'i' && s.get_char(i + 3) == 'l' && s.get_char(i + 4) == 'd' && s.get_char(i + 5)
            == '-' {
            proof {
                reveal_strlit("build-");
                assert(rest.subrange(0, 6) =~= "build-"@);
                assert(rest.skip(6) =~= s@.skip(i + 6));
                assert(spec_strip_build(rest) == spec_strip_build(s@.skip(i + 6)));
            }
            i = i + 6;
        } else {
            proof {
                assert(!(rest.len() >= 6 && rest.subrange(0, 6) == "build-"@)) by {
                    reveal_strlit("build-");
                    if rest.len() >= 6 && rest.subrange(0, 6) == "build-"@ {
                        assert(rest[0] == rest.subrange(0, 6)[0] && rest[1] == rest.subrange(
                            0,
                            6,
                        )[1] && rest[2] == rest.subrange(0, 6)[2] && rest[3] == rest.subrange(
                            0,
                            6,
                        )[3] && rest[4] == rest.subrange(0, 6)[4] && rest[5] == rest.subrange(
                            0,
                            6,
                        )[5]);
                        assert(rest[0] == 'b' && rest[1] == 'u' && rest[2] == 'i' && rest[3] == 'l'
                            && rest[4] == 'd' && rest[5] == '-');
                        assert(rest[0] == s@[i as int] && rest[1] == s@[i + 1] && rest[2] == s@[i
                            + 2] && rest[3] == s@[i + 3] && rest[4] == s@[i + 4] && rest[5] == s@[i
                            + 5]);
                        assert(false);
                    }
                }
                assert(rest.skip(1) =~= s@.skip(i + 1));
                assert(spec_strip_build(rest) == seq![s@[i as int]] + spec_strip_build(
                    s@.skip(i + 1),
                ));
            }
            let piece = s.substring_char(i, i + 1);
            proof {
                assert(piece@ =~= seq![s@[i as int]]);
            }
            r.append(piece);
            i = i + 1;
        }
        proof {
            assert(spec_strip_build(s@) =~= r@ + spec_strip_build(s@.skip(i as int)));
        }
    }
    proof {
        assert(spec_strip_build(s@.skip(n as int)) =~= Seq::<char>::empty());
        assert(r@ =~= spec_strip_build(s@));
    }
    r
}

/// Reads the device's identity out of the info dictionary: the `hw`
/// value is the name, the `sw` value — with every `build-` removed —
/// the software version. A missing key is reported exactly as the
/// updater reports it.
pub fn get_skytraxx_device(dict: &InfoDict) -> (r: Result<DeviceInfo, String>)
    ensures
        !dict@.dom().contains("hw"@) ==> (r matches Err(m) && m@ == "device_name not found"@),
        dict@.dom().contains("hw"@) && !dict@.dom().contains("sw"@) ==> (r matches Err(m) && m@
            == "software_version not found"@),
        dict@.dom().contains("hw"@) && dict@.dom().contains("sw"@) ==> (r matches Ok(d) && {
            &&& d.device_name@ == dict@["hw"@]
            &&& d.software_version@ == spec_strip_build(dict@["sw"@])
        }),
{
    let device_name = match dict.get("hw") {
        Some(hw) => hw.clone(),
        None => {
            return Err("device_name not found".to_owned());
        },
    };
    let software_version = match dict.get("sw") {
        Some(sw) => strip_build(sw.as_str()),
        None => {
            return Err("software_version not found".to_owned());
        },
    };
    Ok(DeviceInfo { device_name, software_version })
}

/// A byte with any ASCII upper-case letter folded to lower case.
pub open spec fn ascii_lower(b: u8) -> u8 {
    if 65 <= b <= 90 {
        (b + 32) as u8
    } else {
        b
    }
}

/// ASCII-case-insensitive equality of two byte strings.
pub open spec fn ascii_eq_ignore_case(a: Seq<u8>, b: Seq<u8>) -> bool {
    a.len() == b.len() && forall|i: int|
        0 <= i < a.len() ==> ascii_lower(#[trigger] a[i]) == ascii_lower(b[i])
}

/// The rule by which the removable volume is recognised: its display
/// name equals the wanted name up to ASCII case.
#[verifier::loop_isolation(false)]
pub fn volume_name_matches(name: &str, wanted: &str) -> (r: bool)
    ensures
        r == ascii_eq_ignore_case(name.spec_bytes(), wanted.spec_bytes()),
{
    let a = name.as_bytes_vec();
    let b = wanted.as_bytes_vec();
    if a.len() != b.len() {
        return false;
    }
    let n = a.len();
    let mut i: usize = 0;
    while i < n
        invariant
            i <= n == a@.len() == b@.len(),
            forall|k: int| 0 <= k < i ==> ascii_lower(#[trigger] a@[k]) == ascii_lower(b@[k]),
        decreases n - i,
    {
        let mut x = a[i];
        let mut y = b[i];
        if 65 <= x && x <= 90 {
            x = x + 32;
        }
        if 65 <= y && y <= 90 {
            y = y + 32;
        }
        if x != y {
            return false;
        }
        i = i + 1;
    }
    true
}

/// True when a path of the running executable lies outside `/Volumes`,
/// the sign that the app runs from the main volume: the path neither is
/// `/Volumes` nor lies under `/Volumes/`.
#[verifier::loop_isolation(false)]
pub fn is_main_volume_path(path: &str) -> (r: bool)
    ensures
        r == !(path@ == "/Volumes"@ || (path@.len() >= 9 && path@.subrange(0, 9)
            == "/Volumes/"@)),
{
    let n = path.unicode_len();
    if n < 8 {
        proof {
            reveal_strlit("/Volumes");
            assert(path@ != "/Volumes"@);
        }
        return true;
    }
    let head = [
        '/',
        'V',
        'o',
        'l',
        'u',
        'm',
        'e',
        's',
    ];
    proof {
        reveal_strlit("/Volumes");
        reveal_strlit("/Volumes/");
        assert(forall|k: int| 0 <= k < 8 ==> head@[k] == "/Volumes"@[k]);
        assert(forall|k: int| 0 <= k < 8 ==> "/Volumes/"@[k] == "/Volumes"@[k]);
        assert("/Volumes"@.len() == 8 && "/Volumes/"@.len() == 9 && "/Volumes/"@[8] == '/');
    }
    let mut i: usize = 0;
    while i < 8
        invariant
            i <= 8 <= n == path@.len(),
            head@.len() == 8,
            forall|k: int| 0 <= k < 8 ==> head@[k] == "/Volumes"@[k],
            forall|k: int| 0 <= k < i ==> path@[k] == "/Volumes"@[k],
        decreases 8 - i,
    {
        if path.get_char(i) != head[i] {
            proof {
                assert(path@[i as int] != "/Volumes"@[i as int]);
                assert(path@ != "/Volumes"@);
                assert(path@.len() >= 9 ==> path@.subrange(0, 9) != "/Volumes/"@) by {
                    if path@.len() >= 9 && path@.subrange(0, 9) == "/Volumes/"@ {
                        assert(path@[i as int] == "/Volumes/"@[i as int]);
                        assert("/Volumes/"@[i as int] == "/Volumes"@[i as int]);
                    }
                }
            }
            return true;
        }
        i = i + 1;
    }
    if n == 8 {
        proof {
            assert(path@ =~= "/Volumes"@);
        }
        return false;
    }
    if path.get_char(8) == '/' {
        proof {
            assert(path@.subrange(0, 9) =~= "/Volumes/"@);
        }
        false
    } else {
        proof {
            assert(path@ != "/Volumes"@);
            assert(path@.subrange(0, 9)[8] != "/Volumes/"@[8]);
        }
        true
    }
}

} // verus!
