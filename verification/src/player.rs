//! The computable part of external-player supervision: the argument
//! list handed to the player and the candidate locations probed for
//! its binary and bundled libraries.  Spawning, process health checks
//! and existence probes are I/O and live with the caller; these
//! functions only turn plain values into plain values.

use vstd::prelude::*;
use crate::text::{join_path, str_eq};
use vstd::string::StrSliceExecFns;

verus! {

/// Prepends `prefix` to `value`, as one argument string.
fn prefixed_arg(prefix: &str, value: &str) -> (r: String)
    ensures
        r@ == prefix@ + value@,
{
    let mut out = prefix.to_owned();
    out.append(value);
    out
}

/// The argument list for playing one file: the path, the fixed window
/// and input options, a subtitle argument when one is known, and a
/// start position when one is given (both already formatted).
pub fn mpv_args(video_path: &str, subtitle: Option<&String>, start: Option<&String>) -> (r: Vec<
    String,
>)
    ensures
        ({
            let base: Seq<Seq<char>> = seq![
                video_path@,
                "--force-window=yes"@,
                "--keep-open=yes"@,
                "--osd-level=1"@,
                "--input-default-bindings=yes"@,
                "--input-vo-keyboard=yes"@,
            ];
            let with_sub: Seq<Seq<char>> = match subtitle {
                Option::Some(s) => base.push("--sub-file="@ + s@),
                Option::None => base,
            };
            let all: Seq<Seq<char>> = match start {
                Option::Some(p) => with_sub.push("--start="@ + p@),
                Option::None => with_sub,
            };
            r@.map_values(|s: String| s@) == all
        }),
{
    let mut args: Vec<String> = Vec::new();
    args.push(video_path.to_owned());
    args.push("--force-window=yes".to_owned());
    args.push("--keep-open=yes".to_owned());
    args.push("--osd-level=1".to_owned());
    args.push("--input-default-bindings=yes".to_owned());
    args.push("--input-vo-keyboard=yes".to_owned());
    proof {
        assert(args@.map_values(|s: String| s@) =~= seq![
            video_path@,
            "--force-window=yes"@,
            "--keep-open=yes"@,
            "--osd-level=1"@,
            "--input-default-bindings=yes"@,
            "--input-vo-keyboard=yes"@,
        ]);
    }
    match subtitle {
        Option::Some(s) => {
            args.push(prefixed_arg("--sub-file=", s.as_str()));
            proof {
                assert(args@.map_values(|s2: String| s2@) =~= args@.drop_last().map_values(
                    |s2: String| s2@,
                ).push(args@.last()@));
            }
        },
        Option::None => {},
    }
    match start {
        Option::Some(p) => {
            args.push(prefixed_arg("--start=", p.as_str()));
            proof {
                assert(args@.map_values(|s2: String| s2@) =~= args@.drop_last().map_values(
                    |s2: String| s2@,
                ).push(args@.last()@));
            }
        },
        Option::None => {},
    }
    args
}

/// The development-tree locations that may hold the bundled player
/// binary named for the build target: under a manifest directory, and
/// at the usual relative spots beside an executable.
pub fn dev_mpv_candidates(manifest_dir: Option<&String>, exe_dir: Option<&String>, target: &str) -> (r:
    Vec<String>)
    ensures
        ({
            let binary = "mpv-"@ + target@;
            let from_manifest: Seq<Seq<char>> = match manifest_dir {
                Option::Some(m) => seq![m@ + seq!['/'] + "binaries"@ + seq!['/'] + binary],
                Option::None => Seq::empty(),
            };
            let from_exe: Seq<Seq<char>> = match exe_dir {
                Option::Some(e) => seq![
                    e@ + seq!['/'] + "../../../binaries"@ + seq!['/'] + binary,
                    e@ + seq!['/'] + "../../binaries"@ + seq!['/'] + binary,
                    e@ + seq!['/'] + "binaries"@ + seq!['/'] + binary,
                ],
                Option::None => Seq::empty(),
            };
            r@.map_values(|s: String| s@) == from_manifest + from_exe
        }),
{
    let binary = prefixed_arg("mpv-", target);
    let mut out: Vec<String> = Vec::new();
    proof {
        assert(out@.map_values(|s: String| s@) =~= Seq::<Seq<char>>::empty());
    }
    match manifest_dir {
        Option::Some(m) => {
            let dir = join_path(m.as_str(), "binaries");
            out.push(join_path(dir.as_str(), binary.as_str()));
            proof {
                assert(out@.map_values(|s: String| s@) =~= out@.drop_last().map_values(
                    |s: String| s@,
                ).push(out@.last()@));
            }
        },
        Option::None => {},
    }
    match exe_dir {
        Option::Some(e) => {
            let d1 = join_path(e.as_str(), "../../../binaries");
            out.push(join_path(d1.as_str(), binary.as_str()));
            proof {
                assert(out@.map_values(|s: String| s@) =~= out@.drop_last().map_values(
                    |s: String| s@,
                ).push(out@.last()@));
            }
            let d2 = join_path(e.as_str(), "../../binaries");
            out.push(join_path(d2.as_str(), binary.as_str()));
            proof {
                assert(out@.map_values(|s: String| s@) =~= out@.drop_last().map_values(
                    |s: String| s@,
                ).push(out@.last()@));
            }
            let d3 = join_path(e.as_str(), "binaries");
            out.push(join_path(d3.as_str(), binary.as_str()));
            proof {
                assert(out@.map_values(|s: String| s@) =~= out@.drop_last().map_values(
                    |s: String| s@,
                ).push(out@.last()@));
            }
        },
        Option::None => {},
    }
    out
}

/// The locations that may hold the player's bundled libraries: under a
/// manifest directory and at the usual relative spots beside an
/// executable.
pub fn bundled_libs_candidates(manifest_dir: Option<&String>, exe_dir: Option<&String>) -> (r: Vec<
    String,
>)
    ensures
        ({
            let from_manifest: Seq<Seq<char>> = match manifest_dir {
                Option::Some(m) => seq![m@ + seq!['/'] + "binaries/libs"@],
                Option::None => Seq::empty(),
            };
            let from_exe: Seq<Seq<char>> = match exe_dir {
                Option::Some(e) => seq![
                    e@ + seq!['/'] + "../../../binaries/libs"@,
                    e@ + seq!['/'] + "../../binaries/libs"@,
                    e@ + seq!['/'] + "binaries/libs"@,
                ],
                Option::None => Seq::empty(),
            };
            r@.map_values(|s: String| s@) == from_manifest + from_exe
        }),
{
    let mut out: Vec<String> = Vec::new();
    proof {
        assert(out@.map_values(|s: String| s@) =~= Seq::<Seq<char>>::empty());
    }
    match manifest_dir {
        Option::Some(m) => {
            out.push(join_path(m.as_str(), "binaries/libs"));
            proof {
                assert(out@.map_values(|s: String| s@) =~= out@.drop_last().map_values(
                    |s: String| s@,
                ).push(out@.last()@));
            }
        },
        Option::None => {},
    }
    match exe_dir {
        Option::Some(e) => {
            out.push(join_path(e.as_str(), "../../../binaries/libs"));
            proof {
                assert(out@.map_values(|s: String| s@) =~= out@.drop_last().map_values(
                    |s: String| s@,
                ).push(out@.last()@));
            }
            out.push(join_path(e.as_str(), "../../binaries/libs"));
            proof {
                assert(out@.map_values(|s: String| s@) =~= out@.drop_last().map_values(
                    |s: String| s@,
                ).push(out@.last()@));
            }
            out.push(join_path(e.as_str(), "binaries/libs"));
            proof {
                assert(out@.map_values(|s: String| s@) =~= out@.drop_last().map_values(
                    |s: String| s@,
                ).push(out@.last()@));
            }
        },
        Option::None => {},
    }
    out
}

/// The well-known installation paths of a system player for the given
/// operating system name, in probe order.
pub fn system_mpv_candidates(os: &str) -> (r: Vec<String>)
    ensures
        ({
            let paths: Seq<Seq<char>> = if os@ == "macos"@ {
                seq![
                    "/opt/homebrew/bin/mpv"@,
                    "/usr/local/bin/mpv"@,
                    "/Applications/mpv.app/Contents/MacOS/mpv"@,
                ]
            } else if os@ == "windows"@ {
                seq![
                    "C:\\Program Files\\mpv\\mpv.exe"@,
                    "C:\\Program Files (x86)\\mpv\\mpv.exe"@,
                ]
            } else {
                seq!["/usr/bin/mpv"@, "/usr/local/bin/mpv"@]
            };
            r@.map_values(|s: String| s@) == paths
        }),
{
    let mut out: Vec<String> = Vec::new();
    if str_eq(os, "macos") {
        out.push("/opt/homebrew/bin/mpv".to_owned());
        out.push("/usr/local/bin/mpv".to_owned());
        out.push("/Applications/mpv.app/Contents/MacOS/mpv".to_owned());
        proof {
            assert(out@.map_values(|s: String| s@) =~= seq![
                "/opt/homebrew/bin/mpv"@,
                "/usr/local/bin/mpv"@,
                "/Applications/mpv.app/Contents/MacOS/mpv"@,
            ]);
        }
    } else if str_eq(os, "windows") {
        out.push("C:\\Program Files\\mpv\\mpv.exe".to_owned());
        out.push("C:\\Program Files (x86)\\mpv\\mpv.exe".to_owned());
        proof {
            assert(out@.map_values(|s: String| s@) =~= seq![
                "C:\\Program Files\\mpv\\mpv.exe"@,
                "C:\\Program Files (x86)\\mpv\\mpv.exe"@,
            ]);
        }
    } else {
        out.push("/usr/bin/mpv".to_owned());
        out.push("/usr/local/bin/mpv".to_owned());
        proof {
            assert(out@.map_values(|s: String| s@) =~= seq![
                "/usr/bin/mpv"@,
                "/usr/local/bin/mpv"@,
            ]);
        }
    }
    out
}

} // verus!
