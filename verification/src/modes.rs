//! How the server is launched: the command-line switches it knows and the
//! choice between real audio capture and simulated audio.
use vstd::prelude::*;
use crate::text::same_text;

verus! {

/// The switches given on the command line.
#[derive(Debug, Clone, Copy, PartialEq, Eq, Structural)]
pub struct LaunchFlags {
    /// `--test`
    pub test_mode: bool,
    /// `--audio` or `--force-audio`
    pub force_audio: bool,
    /// `--production`
    pub production_mode: bool,
    /// `--no-sim` or `--real-audio-only`
    pub no_audio_sim: bool,
    /// `--force-test`
    pub force_test: bool,
}

/// Some argument is exactly `flag`.
pub open spec fn has_arg(args: Seq<Seq<char>>, flag: Seq<char>) -> bool {
    exists|i: int| 0 <= i < args.len() && #[trigger] args[i] == flag
}

/// The switches that `args` holds (in any position, any number of times).
pub open spec fn flags_of(args: Seq<Seq<char>>) -> LaunchFlags {
    LaunchFlags {
        test_mode: has_arg(args, "--test"@),
        force_audio: has_arg(args, "--audio"@) || has_arg(args, "--force-audio"@),
        production_mode: has_arg(args, "--production"@),
        no_audio_sim: has_arg(args, "--no-sim"@) || has_arg(args, "--real-audio-only"@),
        force_test: has_arg(args, "--force-test"@),
    }
}

/// Whether real audio is captured: in production unless `--force-test`;
/// when forced; not in test mode; and by default.
pub open spec fn real_audio(f: LaunchFlags) -> bool {
    if f.production_mode && !f.force_test {
        true
    } else if f.force_audio || f.no_audio_sim {
        true
    } else if f.test_mode {
        false
    } else {
        true
    }
}

/// Whether some argument is exactly `flag`.
fn contains_arg(args: &Vec<String>, flag: &str) -> (r: bool)
    ensures
        r == has_arg(args@.map_values(|s: String| s@), flag@),
{
    let ghost views = args@.map_values(|s: String| s@);
    let mut i: usize = 0;
    while i < args.len()
        invariant
            i <= args@.len(),
            views == args@.map_values(|s: String| s@),
            forall|k: int| 0 <= k < i ==> views[k] != flag@,
        decreases args@.len() - i,
    {
        if same_text(args[i].as_str(), flag) {
            assert(views[i as int] == flag@);
            return true;
        }
        i = i + 1;
    }
    false
}

/// Reads the switches from the command-line arguments.
pub fn launch_flags(args: &Vec<String>) -> (f: LaunchFlags)
    ensures
        f == flags_of(args@.map_values(|s: String| s@)),
{
    LaunchFlags {
        test_mode: contains_arg(args, "--test"),
        force_audio: contains_arg(args, "--audio") || contains_arg(args, "--force-audio"),
        production_mode: contains_arg(args, "--production"),
        no_audio_sim: contains_arg(args, "--no-sim") || contains_arg(args, "--real-audio-only"),
        force_test: contains_arg(args, "--force-test"),
    }
}

/// Whether real audio is captured (see `real_audio`).
pub fn use_real_audio(flags: &LaunchFlags) -> (r: bool)
    ensures
        r == real_audio(*flags),
{
    if flags.production_mode && !flags.force_test {
        true
    } else if flags.force_audio || flags.no_audio_sim {
        true
    } else if flags.test_mode {
        false
    } else {
        true
    }
}

/// Simulated audio is used only when asked for: with `--test`, or with
/// `--force-test` in production, and never when real audio is forced.
pub proof fn lemma_simulation_only_on_request(f: LaunchFlags)
    ensures
        !real_audio(f) <==> (!f.force_audio && !f.no_audio_sim && (f.test_mode && (!f.production_mode || f.force_test))),
{
}

} // verus!
