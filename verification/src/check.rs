//! Target selection for the underlying build command.

use vstd::prelude::*;

verus! {

/// Which targets of the package the run should check and fix.
pub struct CheckFlags {
    /// Fix only this package's library.
    pub lib: bool,
    /// Fix all binaries.
    pub bins: bool,
    /// Fix only the specified binary.
    pub bin: Option<String>,
    /// Fix all examples.
    pub examples: bool,
    /// Fix only the specified example.
    pub example: Option<String>,
    /// Fix all tests.
    pub tests: bool,
    /// Fix only the specified test.
    pub test: Option<String>,
    /// Fix all benches.
    pub benches: bool,
    /// Fix only the specified bench.
    pub bench: Option<String>,
    /// Fix all targets.
    pub all_targets: bool,
    /// Unstable (nightly-only) flags.
    pub unstable_flags: Vec<String>,
}

pub open spec fn opt_str_view(o: &Option<String>) -> Option<Seq<char>> {
    match o {
        Some(s) => Some(s@),
        None => None,
    }
}

pub open spec fn strings_view(s: Seq<String>) -> Seq<Seq<char>> {
    s.map_values(|x: String| x@)
}

/// A boolean flag's contribution to the command line.
pub open spec fn flag_if(b: bool, flag: Seq<char>) -> Seq<Seq<char>> {
    if b {
        seq![flag]
    } else {
        Seq::empty()
    }
}

/// A named-target option's contribution: the flag followed by the name.
pub open spec fn flag_opt(o: Option<Seq<char>>, flag: Seq<char>) -> Seq<Seq<char>> {
    match o {
        Some(name) => seq![flag, name],
        None => Seq::empty(),
    }
}

/// Each unstable flag is passed behind its own `-Z`.
pub open spec fn z_flags(zs: Seq<Seq<char>>) -> Seq<Seq<char>>
    decreases zs.len(),
{
    if zs.len() == 0 {
        Seq::empty()
    } else {
        z_flags(zs.drop_last()) + seq!["-Z"@, zs.last()]
    }
}

/// The whole selection, in the fixed order the command expects.
pub open spec fn flags_spec(f: &CheckFlags) -> Seq<Seq<char>> {
    flag_if(f.lib, "--lib"@) + flag_if(f.bins, "--bins"@) + flag_opt(opt_str_view(&f.bin), "--bin"@)
        + flag_if(f.examples, "--examples"@) + flag_opt(opt_str_view(&f.example), "--example"@)
        + flag_if(f.tests, "--tests"@) + flag_opt(opt_str_view(&f.test), "--test"@) + flag_if(
        f.benches,
        "--benches"@,
    ) + flag_opt(opt_str_view(&f.bench), "--bench"@) + flag_if(f.all_targets, "--all-targets"@)
        + z_flags(strings_view(f.unstable_flags@))
}

/// Append the flag when the toggle is set.
fn push_flag(out: &mut Vec<String>, b: bool, flag: &str)
    ensures
        strings_view(final(out)@) == strings_view(old(out)@) + flag_if(b, flag@),
{
    if b {
        out.push(flag.to_owned());
    }
    proof {
        assert(strings_view(out@) =~= strings_view(old(out)@) + flag_if(b, flag@));
    }
}

/// Append the flag and the chosen name when one is given.
fn push_opt(out: &mut Vec<String>, o: &Option<String>, flag: &str)
    ensures
        strings_view(final(out)@) == strings_view(old(out)@) + flag_opt(opt_str_view(o), flag@),
{
    match o {
        Some(b) => {
            out.push(flag.to_owned());
            out.push(b.clone());
        },
        None => {},
    }
    proof {
        assert(strings_view(out@) =~= strings_view(old(out)@) + flag_opt(opt_str_view(o), flag@));
    }
}

impl CheckFlags {
    /// The command-line arguments that select the chosen targets.
    #[verifier::rlimit(100)]
    pub fn to_flags(&self) -> (out: Vec<String>)
        ensures
            strings_view(out@) == flags_spec(self),
    {
        let mut out: Vec<String> = Vec::new();
        proof {
            assert(strings_view(out@) =~= Seq::<Seq<char>>::empty());
            assert(Seq::<Seq<char>>::empty() + flag_if(self.lib, "--lib"@) =~= flag_if(
                self.lib,
                "--lib"@,
            ));
        }
        push_flag(&mut out, self.lib, "--lib");
        push_flag(&mut out, self.bins, "--bins");
        push_opt(&mut out, &self.bin, "--bin");
        push_flag(&mut out, self.examples, "--examples");
        push_opt(&mut out, &self.example, "--example");
        push_flag(&mut out, self.tests, "--tests");
        push_opt(&mut out, &self.test, "--test");
        push_flag(&mut out, self.benches, "--benches");
        push_opt(&mut out, &self.bench, "--bench");
        push_flag(&mut out, self.all_targets, "--all-targets");
        let ghost s10 = strings_view(out@);
        let ghost zs = strings_view(self.unstable_flags@);
        let mut i: usize = 0;
        while i < self.unstable_flags.len()
            invariant
                0 <= i <= self.unstable_flags.len(),
                strings_view(out@) == s10 + z_flags(zs.take(i as int)),
            decreases self.unstable_flags.len() - i,
        {
            let ghost before = strings_view(out@);
            out.push("-Z".to_owned());
            let ghost mid = strings_view(out@);
            out.push(self.unstable_flags[i].clone());
            proof {
                assert(mid =~= before.push("-Z"@));
                assert(strings_view(out@) =~= mid.push(zs[i as int]));
                assert(zs.take(i as int + 1).drop_last() =~= zs.take(i as int));
                assert(zs.take(i as int + 1).last() == zs[i as int]);
                assert(strings_view(out@) =~= s10 + z_flags(zs.take(i as int + 1)));
            }
            i += 1;
        }
        proof {
            assert(zs.take(zs.len() as int) =~= zs);
            assert(strings_view(out@) =~= flags_spec(self));
        }
        out
    }
}

/// The full argument list for one pass of the build command: the chosen
/// personality, the structured-output flag, then the target selection.
#[verifier::rlimit(100)]
pub fn check_command_args(clippy: bool, flags: &CheckFlags) -> (out: Vec<String>)
    ensures
        strings_view(out@) == seq![if clippy { "clippy"@ } else { "check"@ }, "--message-format"@, "json-diagnostic-rendered-ansi"@]
            + flags_spec(flags),
{
    let mut out: Vec<String> = Vec::new();
    let cmd: &str = if clippy {
        "clippy"
    } else {
        "check"
    };
    assert(cmd@ == if clippy { "clippy"@ } else { "check"@ });
    out.push(cmd.to_owned());
    out.push("--message-format".to_owned());
    out.push("json-diagnostic-rendered-ansi".to_owned());
    let ghost s0 = strings_view(out@);
    proof {
        assert(s0 =~= seq![if clippy { "clippy"@ } else { "check"@ }, "--message-format"@, "json-diagnostic-rendered-ansi"@]);
    }
    let mut rest = flags.to_flags();
    let ghost restv = strings_view(rest@);
    let mut i: usize = 0;
    while i < rest.len()
        invariant
            0 <= i <= rest@.len(),
            rest@.len() == restv.len(),
            restv == strings_view(rest@),
            strings_view(out@) == s0 + restv.take(i as int),
        decreases rest@.len() - i,
    {
        let s = rest[i].clone();
        let ghost before = strings_view(out@);
        out.push(s);
        proof {
            assert(strings_view(out@) =~= before.push(restv[i as int]));
            assert(strings_view(out@) =~= s0 + restv.take(i as int + 1));
        }
        i += 1;
    }
    proof {
        assert(restv.take(restv.len() as int) =~= restv);
    }
    out
}

} // verus!
