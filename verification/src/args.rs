//! Command lines of the programs: the baker's flags and the viewer's scene
//! argument.
use vstd::prelude::*;
use crate::text::{
    chars_of, decimal, lemma_parse_decimal_u64, parse_u64, parse_u64_spec, same_text, IntErrorKind,
};

verus! {

/// The scenes the baker knows.
#[derive(Debug, Clone, Copy, PartialEq, Eq)]
pub enum BakeSceneKind {
    /// `closed_box`: a closed unit cube whose floor emits.
    ClosedBox,
    /// `cornell`: a Cornell box without its front wall.
    Cornell,
    /// `flat_plane`: one horizontal square.
    FlatPlane,
}

pub open spec fn scene_kind_spec(name: Seq<char>) -> Option<BakeSceneKind> {
    if name == "closed_box"@ {
        Some(BakeSceneKind::ClosedBox)
    } else if name == "cornell"@ {
        Some(BakeSceneKind::Cornell)
    } else if name == "flat_plane"@ {
        Some(BakeSceneKind::FlatPlane)
    } else {
        None
    }
}

impl BakeSceneKind {
    /// The scene a name on the command line selects, if any.
    pub fn from_name(name: &str) -> (k: Option<BakeSceneKind>)
        ensures
            k == scene_kind_spec(name@),
    {
        if same_text(name, "closed_box") {
            Some(BakeSceneKind::ClosedBox)
        } else if same_text(name, "cornell") {
            Some(BakeSceneKind::Cornell)
        } else if same_text(name, "flat_plane") {
            Some(BakeSceneKind::FlatPlane)
        } else {
            None
        }
    }
}

/// The seed a bake uses when none is given.
pub open spec fn default_seed() -> u64 {
    0xc0ffee
}

/// Where a bake is written when no `--out` is given.
pub open spec fn default_out() -> Seq<char> {
    "bake.json"@
}

/// How far reading the baker's flags got: to the end, with the values
/// seen, or to the first flag it could not take.
pub enum BakeScan {
    Done { scene: Option<Seq<char>>, out: Option<Seq<char>>, seed: u64 },
    SeedNeedsValue,
    BadSeed(IntErrorKind),
    Unknown(Seq<char>),
}

/// Reads the flags from position `i` on. `--scene NAME` and `--out PATH`
/// take the next argument (the last of each wins, and one with nothing after
/// it forgets the value); `--seed N` takes a `u64`; anything else stops.
pub open spec fn bake_scan(
    args: Seq<Seq<char>>,
    i: int,
    scene: Option<Seq<char>>,
    out: Option<Seq<char>>,
    seed: u64,
) -> BakeScan
    decreases args.len() - i,
{
    if i < 0 || i >= args.len() {
        BakeScan::Done { scene, out, seed }
    } else if args[i] == "--scene"@ {
        if i + 1 < args.len() {
            bake_scan(args, i + 2, Some(args[i + 1]), out, seed)
        } else {
            BakeScan::Done { scene: None, out, seed }
        }
    } else if args[i] == "--out"@ {
        if i + 1 < args.len() {
            bake_scan(args, i + 2, scene, Some(args[i + 1]), seed)
        } else {
            BakeScan::Done { scene, out: None, seed }
        }
    } else if args[i] == "--seed"@ {
        if i + 1 < args.len() {
            match parse_u64_spec(args[i + 1]) {
                Ok(v) => bake_scan(args, i + 2, scene, out, v),
                Err(e) => BakeScan::BadSeed(e),
            }
        } else {
            BakeScan::SeedNeedsValue
        }
    } else {
        BakeScan::Unknown(args[i])
    }
}

/// No argument from position `i` on is the `--seed` flag.
pub open spec fn no_seed_flag_from(args: Seq<Seq<char>>, i: int) -> bool {
    forall|j: int| i <= j < args.len() ==> #[trigger] args[j] != "--seed"@
}

/// `--seed` followed by a number that reads as `v` goes on with `v` as the
/// seed, whatever the seed was before it: no value, zero included, is
/// replaced.
pub proof fn lemma_seed_flag_takes_value(
    args: Seq<Seq<char>>,
    i: int,
    scene: Option<Seq<char>>,
    out: Option<Seq<char>>,
    seed: u64,
    v: u64,
)
    requires
        0 <= i,
        i + 1 < args.len(),
        args[i] == "--seed"@,
        parse_u64_spec(args[i + 1]) == Ok::<u64, IntErrorKind>(v),
    ensures
        bake_scan(args, i, scene, out, seed) == bake_scan(args, i + 2, scene, out, v),
{
    reveal_strlit("--seed");
    reveal_strlit("--scene");
    reveal_strlit("--out");
    assert("--seed"@ != "--scene"@) by {
        assert("--seed"@[3] != "--scene"@[3]);
    }
    assert("--seed"@ != "--out"@) by {
        assert("--seed"@.len() != "--out"@.len());
    }
}

/// Without a `--seed` flag ahead, a scan that finishes keeps the seed it
/// started with.
pub proof fn lemma_seed_kept_without_flag(
    args: Seq<Seq<char>>,
    i: int,
    scene: Option<Seq<char>>,
    out: Option<Seq<char>>,
    seed: u64,
)
    requires
        0 <= i,
        no_seed_flag_from(args, i),
    ensures
        bake_scan(args, i, scene, out, seed) is Done ==> bake_scan(args, i, scene, out, seed)->seed
            == seed,
    decreases args.len() - i,
{
    if i < args.len() {
        assert(args[i] != "--seed"@);
        if i + 2 <= args.len() {
            lemma_seed_kept_without_flag(args, i + 2, Some(args[i + 1]), out, seed);
            lemma_seed_kept_without_flag(args, i + 2, scene, Some(args[i + 1]), seed);
        }
    }
}

/// The last `--seed` decides: when `--seed` is followed by the decimal text
/// of any `u64` `v` and no `--seed` flag comes later, a scan that finishes
/// gives the seed `v`.
pub proof fn lemma_last_seed_wins(
    args: Seq<Seq<char>>,
    i: int,
    scene: Option<Seq<char>>,
    out: Option<Seq<char>>,
    seed: u64,
    v: u64,
)
    requires
        0 <= i,
        i + 1 < args.len(),
        args[i] == "--seed"@,
        args[i + 1] == decimal(v as nat),
        no_seed_flag_from(args, i + 2),
    ensures
        bake_scan(args, i, scene, out, seed) is Done ==> bake_scan(args, i, scene, out, seed)->seed
            == v,
{
    lemma_parse_decimal_u64(v);
    lemma_seed_flag_takes_value(args, i, scene, out, seed, v);
    lemma_seed_kept_without_flag(args, i + 2, scene, out, v);
}

/// The text of each argument.
pub open spec fn arg_texts(args: Seq<String>) -> Seq<Seq<char>> {
    args.map_values(|a: String| a@)
}

/// What the baker was asked to do.
pub struct BakeArgs {
    pub scene: String,
    pub out: String,
    pub seed: u64,
}

/// Why the baker's command line was refused.
#[derive(Debug)]
pub enum BakeArgsError {
    /// `--seed` was the last argument.
    SeedNeedsValue,
    /// The value after `--seed` is not a `u64`.
    BadSeed(IntErrorKind),
    /// An argument that is not a flag the baker knows.
    UnknownArg(String),
    /// No `--scene` was given.
    SceneRequired,
}

/// Reads the baker's arguments (the program name left out): a scene is
/// required; the output defaults to `bake.json` and the seed to `0xc0ffee`.
pub fn parse_bake_args(args: &Vec<String>) -> (r: Result<BakeArgs, BakeArgsError>)
    ensures
        ({
            let scan = bake_scan(arg_texts(args@), 0, None, None, default_seed());
            match r {
                Ok(a) => scan matches BakeScan::Done { scene, out, seed } && scene == Some(a.scene@)
                    && a.out@ == (match out {
                    Some(o) => o,
                    None => default_out(),
                }) && a.seed == seed,
                Err(BakeArgsError::SceneRequired) => scan matches BakeScan::Done {
                    scene,
                    ..
                } && scene is None,
                Err(BakeArgsError::SeedNeedsValue) => scan is SeedNeedsValue,
                Err(BakeArgsError::BadSeed(e)) => scan == BakeScan::BadSeed(e),
                Err(BakeArgsError::UnknownArg(a)) => scan == BakeScan::Unknown(a@),
            }
        }),
{
    let ghost texts = arg_texts(args@);
    let n = args.len();
    let mut scene: Option<String> = None;
    let mut out: Option<String> = None;
    let mut seed: u64 = 0xc0ffee;
    let mut i: usize = 0;
    while i < n
        invariant
            n == args@.len(),
            texts == arg_texts(args@),
            texts.len() == n,
            bake_scan(texts, 0, None, None, default_seed()) == bake_scan(
                texts,
                i as int,
                match scene {
                    Some(s) => Some(s@),
                    None => None,
                },
                match out {
                    Some(o) => Some(o@),
                    None => None,
                },
                seed,
            ),
        decreases n - i,
    {
        let a = args[i].as_str();
        proof {
            assert(texts[i as int] == a@);
        }
        if same_text(a, "--scene") {
            if i + 1 < n {
                scene = Some(args[i + 1].clone());
                proof {
                    assert(texts[i + 1] == args@[i + 1]@);
                }
            } else {
                scene = None;
                return finish_bake_args(args, scene, out, seed);
            }
            i = i + 2;
        } else if same_text(a, "--out") {
            if i + 1 < n {
                out = Some(args[i + 1].clone());
                proof {
                    assert(texts[i + 1] == args@[i + 1]@);
                }
            } else {
                out = None;
                return finish_bake_args(args, scene, out, seed);
            }
            i = i + 2;
        } else if same_text(a, "--seed") {
            if i + 1 < n {
                let v = chars_of(args[i + 1].as_str());
                proof {
                    assert(texts[i + 1] == args@[i + 1]@);
                    assert(v@.subrange(0, v@.len() as int) =~= v@);
                }
                match parse_u64(v.as_slice(), 0, v.len()) {
                    Ok(x) => {
                        seed = x;
                    },
                    Err(e) => {
                        return Err(BakeArgsError::BadSeed(e));
                    },
                }
            } else {
                return Err(BakeArgsError::SeedNeedsValue);
            }
            i = i + 2;
        } else {
            return Err(BakeArgsError::UnknownArg(args[i].clone()));
        }
    }
    finish_bake_args(args, scene, out, seed)
}

/// Turns the values read into the baker's arguments.
fn finish_bake_args(
    args: &Vec<String>,
    scene: Option<String>,
    out: Option<String>,
    seed: u64,
) -> (r: Result<BakeArgs, BakeArgsError>)
    ensures
        match r {
            Ok(a) => scene matches Some(s) && a.scene@ == s@ && a.out@ == (match out {
                Some(o) => o@,
                None => default_out(),
            }) && a.seed == seed,
            Err(e) => scene is None && e is SceneRequired,
        },
{
    match scene {
        Some(s) => {
            let out = match out {
                Some(o) => o,
                None => {
                    proof {
                        reveal_strlit("bake.json");
                    }
                    String::from_str("bake.json")
                },
            };
            Ok(BakeArgs { scene: s, out, seed })
        },
        None => Err(BakeArgsError::SceneRequired),
    }
}

/// What the viewer was asked to show.
pub struct ViewerArgs {
    /// The scene file: the value of the last `--scene`, if any.
    pub scene: Option<String>,
    /// The arguments it did not understand, in order.
    pub ignored: Vec<String>,
}

/// Reads the viewer's arguments from position `i` on: `--scene` takes the
/// next argument (with nothing after it, the scene is forgotten); anything
/// else is ignored.
pub open spec fn viewer_scan(args: Seq<Seq<char>>, i: int, scene: Option<Seq<char>>) -> (
    Option<Seq<char>>,
    Seq<Seq<char>>,
)
    decreases args.len() - i,
{
    if i < 0 || i >= args.len() {
        (scene, Seq::empty())
    } else if args[i] == "--scene"@ {
        if i + 1 < args.len() {
            viewer_scan(args, i + 2, Some(args[i + 1]))
        } else {
            (None, Seq::empty())
        }
    } else {
        let rest = viewer_scan(args, i + 1, scene);
        (rest.0, seq![args[i]] + rest.1)
    }
}

/// Reads the viewer's arguments (the program name left out).
pub fn parse_viewer_args(args: &Vec<String>) -> (v: ViewerArgs)
    ensures
        ({
            let scan = viewer_scan(arg_texts(args@), 0, None);
            &&& scan.0 == match v.scene {
                Some(s) => Some(s@),
                None => None,
            }
            &&& scan.1 == arg_texts(v.ignored@)
        }),
{
    let ghost texts = arg_texts(args@);
    let n = args.len();
    let mut scene: Option<String> = None;
    let mut ignored: Vec<String> = Vec::new();
    let mut i: usize = 0;
    while i < n
        invariant
            n == args@.len(),
            i <= n + 1,
            texts == arg_texts(args@),
            texts.len() == n,
            ({
                let whole = viewer_scan(texts, 0, None);
                let rest = viewer_scan(
                    texts,
                    i as int,
                    match scene {
                        Some(s) => Some(s@),
                        None => None,
                    },
                );
                &&& whole.0 == rest.0
                &&& whole.1 == arg_texts(ignored@) + rest.1
            }),
        decreases n + 1 - i,
    {
        let a = args[i].as_str();
        proof {
            assert(texts[i as int] == a@);
        }
        if same_text(a, "--scene") {
            if i + 1 < n {
                scene = Some(args[i + 1].clone());
                proof {
                    assert(texts[i + 1] == args@[i + 1]@);
                }
                i = i + 2;
            } else {
                scene = None;
                i = i + 1;
                proof {
                    assert(viewer_scan(texts, i as int, None) == (
                        None::<Seq<char>>,
                        Seq::<Seq<char>>::empty(),
                    ));
                }
            }
        } else {
            let ghost before = ignored@;
            ignored.push(args[i].clone());
            proof {
                assert(arg_texts(ignored@) =~= arg_texts(before) + seq![texts[i as int]]);
            }
            i = i + 1;
        }
    }
    proof {
        assert(arg_texts(ignored@) + Seq::<Seq<char>>::empty() =~= arg_texts(ignored@));
    }
    ViewerArgs { scene, ignored }
}

} // verus!
