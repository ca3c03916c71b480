//! Command-line options of the host process that the runtime reads.
use vstd::prelude::*;
use crate::chars::same_text;

verus! {

/// What the command line asks of the runtime.
#[derive(Debug)]
pub struct LovelyConfig {
    pub dump_all: bool,
    pub vanilla: bool,
    pub mod_dir: Option<String>,
    pub disable_console: bool,
}

/// The options as plain values: dump everything, no mods, mod directory, no console.
pub type ConfigView = (bool, bool, Option<Seq<char>>, bool);

impl LovelyConfig {
    pub open spec fn view_of(&self) -> ConfigView {
        (
            self.dump_all,
            self.vanilla,
            match self.mod_dir {
                Some(d) => Some(d@),
                None => None,
            },
            self.disable_console,
        )
    }
}

/// Whether `a` switches mods off.
pub open spec fn is_vanilla_flag(a: Seq<char>) -> bool {
    a == "--vanilla"@ || a == "-v"@ || a == "--disable-mods"@ || a == "-d"@
}

/// The options after reading `args` from place `i` on, starting from `c`: a flag
/// sets its option, `--mod-dir` takes the next argument as the directory, and
/// so does the text after `--mod-dir=`, and anything else is passed over.
pub open spec fn read_from(args: Seq<Seq<char>>, i: int, c: ConfigView) -> ConfigView
    decreases args.len() - i,
{
    if i < 0 || i >= args.len() {
        c
    } else if args[i].len() > 10 && args[i].take(10) == "--mod-dir="@ {
        read_from(args, i + 1, (c.0, c.1, Some(args[i].skip(10)), c.3))
    } else if args[i] == "--mod-dir"@ {
        if i + 1 < args.len() {
            read_from(args, i + 2, (c.0, c.1, Some(args[i + 1]), c.3))
        } else {
            c
        }
    } else if is_vanilla_flag(args[i]) {
        read_from(args, i + 1, (c.0, true, c.2, c.3))
    } else if args[i] == "--dump-all"@ {
        read_from(args, i + 1, (true, c.1, c.2, c.3))
    } else if args[i] == "--disable-console"@ {
        read_from(args, i + 1, (c.0, c.1, c.2, true))
    } else {
        read_from(args, i + 1, c)
    }
}

/// The directory of an argument `--mod-dir=<path>` with a non-empty path.
fn inline_dir(a: &str) -> (r: Option<String>)
    ensures
        r.is_some() == (a@.len() > 10 && a@.take(10) == "--mod-dir="@),
        r.is_some() ==> r.unwrap()@ == a@.skip(10),
{
    let v = crate::chars::chars_of(a);
    let key = crate::chars::chars_of("--mod-dir=");
    proof {
        reveal_strlit("--mod-dir=");
    }
    assert(key.len() == 10);
    if v.len() <= 10 {
        return None;
    }
    let mut k: usize = 0;
    while k < 10
        invariant
            key@ == "--mod-dir="@,
            key.len() == 10,
            v@ == a@,
            v.len() > 10,
            k <= 10,
            forall|j: int| 0 <= j < k ==> v@[j] == key@[j],
        decreases 10 - k,
    {
        if v[k] != key[k] {
            assert(v@.take(10)[k as int] != key@[k as int]);
            return None;
        }
        k += 1;
    }
    assert(v@.take(10) =~= key@);
    let mut rest: Vec<char> = Vec::new();
    let mut i: usize = 10;
    while i < v.len()
        invariant
            10 <= i <= v.len(),
            rest@ == v@.subrange(10, i as int),
        decreases v.len() - i,
    {
        rest.push(v[i]);
        i += 1;
    }
    assert(rest@ =~= v@.skip(10));
    Some(crate::chars::string_of(rest.as_slice()))
}

impl LovelyConfig {
    /// Reads the options out of the process arguments; the first argument, the
    /// program, is passed over.
    pub fn parse_args(args: &Vec<String>) -> (r: Self)
        ensures
            r.view_of() == read_from(crate::chars::views(args@), 1, (false, false, None, false)),
    {
        let ghost av = crate::chars::views(args@);
        let mut c = LovelyConfig { dump_all: false, vanilla: false, mod_dir: None, disable_console: false };
        let mut i: usize = 1;
        while i < args.len()
            invariant
                av == crate::chars::views(args@),
                1 <= i,
                read_from(av, 1, (false, false, None, false)) == read_from(av, i as int, c.view_of()),
            decreases args.len() - i,
        {
            let a = args[i].as_str();
            assert(av[i as int] == a@);
            let inline = inline_dir(a);
            if inline.is_some() {
                c.mod_dir = inline;
                i += 1;
            } else if same_text(a, "--mod-dir") {
                if i + 1 < args.len() {
                    assert(av[i + 1] == args[i + 1]@);
                    c.mod_dir = Some(args[i + 1].clone());
                    i += 2;
                } else {
                    i = args.len();
                }
            } else if same_text(a, "--vanilla") || same_text(a, "-v") || same_text(a, "--disable-mods")
                || same_text(a, "-d") {
                c.vanilla = true;
                i += 1;
            } else if same_text(a, "--dump-all") {
                c.dump_all = true;
                i += 1;
            } else if same_text(a, "--disable-console") {
                c.disable_console = true;
                i += 1;
            } else {
                i += 1;
            }
        }
        c
    }
}

} // verus!
