//! Command line options of the image renderer.
use crate::text::{range_begins_with, same_text, to_chars, begins_with};
use vstd::prelude::*;

verus! {

/// What the options ask for. File names and the scale are given by their places among the
/// arguments.
pub struct Options {
    pub input: usize,
    pub output: usize,
    pub sese: bool,
    pub debug: bool,
    pub straight: bool,
    pub scale: Option<usize>,
}

/// Why the options cannot be followed.
#[derive(Debug, Clone, Copy, PartialEq, Eq, Structural)]
pub enum OptionsError {
    /// There are not two file names, or help was asked for.
    Usage,
    /// A scale is missing, or is no number.
    Scale,
    /// The argument at this place is no option.
    Unknown(usize),
}

/// The options read so far.
pub struct Reading {
    pub positional: Seq<usize>,
    pub sese: bool,
    pub debug: bool,
    pub straight: bool,
    pub scale: Option<usize>,
}

/// Reads the arguments from place `i` on. `numbers` tells which arguments are numbers.
pub open spec fn read_from(
    args: Seq<Seq<char>>,
    numbers: Seq<bool>,
    i: int,
    r: Reading,
) -> Result<Reading, OptionsError>
    decreases args.len() - i,
{
    if i >= args.len() {
        Ok(r)
    } else {
        let arg = args[i];
        if arg == "--sese"@ {
            read_from(args, numbers, i + 1, Reading { sese: true, ..r })
        } else if arg == "--debug"@ {
            read_from(args, numbers, i + 1, Reading { debug: true, ..r })
        } else if arg == "--straight"@ {
            read_from(args, numbers, i + 1, Reading { straight: true, ..r })
        } else if arg == "--scale"@ {
            if i + 1 >= args.len() || !numbers[i + 1] {
                Err(OptionsError::Scale)
            } else {
                read_from(args, numbers, i + 2, Reading { scale: Some((i + 1) as usize), ..r })
            }
        } else if arg == "--help"@ || arg == "-h"@ {
            Err(OptionsError::Usage)
        } else if begins_with(arg, "-"@) {
            Err(OptionsError::Unknown(i as usize))
        } else {
            read_from(
                args,
                numbers,
                i + 1,
                Reading { positional: r.positional.push(i as usize), ..r },
            )
        }
    }
}

pub open spec fn nothing_read() -> Reading {
    Reading {
        positional: Seq::empty(),
        sese: false,
        debug: false,
        straight: false,
        scale: None,
    }
}

/// The options are what was read, with two file names.
pub open spec fn is_outcome(
    read: Result<Reading, OptionsError>,
    result: Result<Options, OptionsError>,
) -> bool {
    match (read, result) {
        (Ok(r), Ok(o)) => {
            &&& r.positional == seq![o.input, o.output]
            &&& o.sese == r.sese
            &&& o.debug == r.debug
            &&& o.straight == r.straight
            &&& o.scale == r.scale
        },
        (Ok(r), Err(e)) => r.positional.len() != 2 && e == OptionsError::Usage,
        (Err(a), Err(b)) => a == b,
        (Err(_), Ok(_)) => false,
    }
}

pub open spec fn arg_texts(args: Seq<String>) -> Seq<Seq<char>> {
    args.map_values(|arg: String| arg@)
}

/// Whether an argument looks like an option.
fn is_dashed(arg: &str) -> (b: bool)
    ensures
        b == begins_with(arg@, "-"@),
{
    let text = to_chars(arg);
    assert(text@.subrange(0, text@.len() as int) =~= arg@);
    range_begins_with(&text, 0, text.len(), "-")
}

/// Reads the options. `numbers` tells which arguments are numbers.
pub fn parse_options(args: &Vec<String>, numbers: &Vec<bool>) -> (result: Result<Options, OptionsError>)
    requires
        numbers@.len() == args@.len(),
    ensures
        is_outcome(read_from(arg_texts(args@), numbers@, 0, nothing_read()), result),
{
    let ghost all = arg_texts(args@);
    let ghost goal = read_from(all, numbers@, 0, nothing_read());
    let mut positional: Vec<usize> = Vec::new();
    let mut sese: bool = false;
    let mut debug: bool = false;
    let mut straight: bool = false;
    let mut scale: Option<usize> = None;
    let mut i: usize = 0;
    assert(positional@ =~= Seq::empty());
    while i < args.len()
        invariant
            numbers@.len() == args@.len(),
            all == arg_texts(args@),
            i <= args@.len(),
            goal == read_from(all, numbers@, 0, nothing_read()),
            read_from(
                all,
                numbers@,
                i as int,
                Reading { positional: positional@, sese, debug, straight, scale },
            ) == goal,
        decreases args@.len() - i,
    {
        let arg: &str = args[i].as_str();
        assert(all[i as int] == arg@);
        if same_text(arg, "--sese") {
            sese = true;
            i = i + 1;
        } else if same_text(arg, "--debug") {
            debug = true;
            i = i + 1;
        } else if same_text(arg, "--straight") {
            straight = true;
            i = i + 1;
        } else if same_text(arg, "--scale") {
            if args.len() - i < 2 || !numbers[i + 1] {
                return Err(OptionsError::Scale);
            }
            scale = Some(i + 1);
            i = i + 2;
        } else if same_text(arg, "--help") || same_text(arg, "-h") {
            return Err(OptionsError::Usage);
        } else if is_dashed(arg) {
            return Err(OptionsError::Unknown(i));
        } else {
            positional.push(i);
            i = i + 1;
        }
    }
    if positional.len() != 2 {
        return Err(OptionsError::Usage);
    }
    let options = Options {
        input: positional[0],
        output: positional[1],
        sese,
        debug,
        straight,
        scale,
    };
    assert(positional@ =~= seq![options.input, options.output]);
    Ok(options)
}

// What the options are.

/// The argument is the number behind `--scale`.
pub open spec fn is_value(args: Seq<Seq<char>>, i: int) -> bool
    decreases i,
{
    0 < i && args[i - 1] == "--scale"@ && !is_value(args, i - 1)
}

/// Why an argument that is no value cannot be followed.
pub open spec fn fault_at(args: Seq<Seq<char>>, numbers: Seq<bool>, i: int) -> Option<OptionsError> {
    if args[i] == "--help"@ || args[i] == "-h"@ {
        Some(OptionsError::Usage)
    } else if args[i] == "--scale"@ {
        if i + 1 < args.len() && numbers[i + 1] {
            None
        } else {
            Some(OptionsError::Scale)
        }
    } else if args[i] == "--sese"@ || args[i] == "--debug"@ || args[i] == "--straight"@ {
        None
    } else if args[i].len() > 0 && args[i][0] == '-' {
        Some(OptionsError::Unknown(i as usize))
    } else {
        None
    }
}

/// The argument at place `i` is an option and reads `word`.
pub open spec fn asks_for(args: Seq<Seq<char>>, i: int, word: Seq<char>) -> bool {
    !is_value(args, i) && args[i] == word
}

/// The word is among the options up to place `k`.
pub open spec fn is_asked(args: Seq<Seq<char>>, k: int, word: Seq<char>) -> bool {
    exists|i: int| 0 <= i < k && #[trigger] asks_for(args, i, word)
}

/// The argument is a file name.
pub open spec fn is_positional(args: Seq<Seq<char>>, i: int) -> bool {
    !is_value(args, i) && !(args[i].len() > 0 && args[i][0] == '-')
}

/// The reading says of the arguments up to place `k` what they ask for: flags that are
/// given, the file names in their order, and the last scale.
pub open spec fn is_reading_of(args: Seq<Seq<char>>, k: int, r: Reading) -> bool {
    &&& r.sese == is_asked(args, k, "--sese"@)
    &&& r.debug == is_asked(args, k, "--debug"@)
    &&& r.straight == is_asked(args, k, "--straight"@)
    &&& forall|j: int, i: int|
        0 <= j < i < r.positional.len() ==> #[trigger] r.positional[j] < #[trigger] r.positional[i]
    &&& forall|j: int|
        0 <= j < r.positional.len() ==> #[trigger] r.positional[j] < k && is_positional(
            args,
            r.positional[j] as int,
        )
    &&& forall|i: int|
        0 <= i < k && #[trigger] is_positional(args, i) ==> r.positional.contains(i as usize)
    &&& match r.scale {
        Some(i) => i < k && is_value(args, i as int) && forall|j: int|
            i < j < k ==> !#[trigger] is_value(args, j),
        None => forall|j: int| 0 <= j < k ==> !#[trigger] is_value(args, j),
    }
}

/// The options are those that the arguments ask for; the first argument that cannot be
/// followed is the one that is reported.
pub open spec fn is_read(
    args: Seq<Seq<char>>,
    numbers: Seq<bool>,
    result: Result<Reading, OptionsError>,
) -> bool {
    match result {
        Ok(r) => {
            &&& is_reading_of(args, args.len() as int, r)
            &&& forall|i: int|
                0 <= i < args.len() && !#[trigger] is_value(args, i) ==> fault_at(args, numbers, i)
                    is None
        },
        Err(e) => exists|i: int|
            {
                &&& 0 <= i < args.len()
                &&& !#[trigger] is_value(args, i)
                &&& fault_at(args, numbers, i) == Some(e)
                &&& forall|j: int|
                    0 <= j < i && !#[trigger] is_value(args, j) ==> fault_at(args, numbers, j)
                        is None
            },
    }
}

/// The options read are those that the arguments ask for.
pub proof fn law_options_are_those_asked_for(args: Seq<Seq<char>>, numbers: Seq<bool>)
    requires
        args.len() == numbers.len(),
        args.len() <= usize::MAX,
    ensures
        is_read(args, numbers, read_from(args, numbers, 0, nothing_read())),
{
    lemma_read_from(args, numbers, 0, nothing_read());
}

proof fn lemma_flags_stay(args: Seq<Seq<char>>, i: int, word: Seq<char>)
    requires
        0 <= i,
    ensures
        is_asked(args, i + 1, word) == (is_asked(args, i, word) || asks_for(args, i, word)),
{
    if is_asked(args, i + 1, word) {
        let j = choose|j: int| 0 <= j < i + 1 && #[trigger] asks_for(args, j, word);
        assert(asks_for(args, j, word));
    }
    if is_asked(args, i, word) {
        let j = choose|j: int| 0 <= j < i && #[trigger] asks_for(args, j, word);
        assert(asks_for(args, j, word));
    }
}

#[verifier::rlimit(40)]
proof fn lemma_read_from(args: Seq<Seq<char>>, numbers: Seq<bool>, i: int, r: Reading)
    requires
        args.len() == numbers.len(),
        args.len() <= usize::MAX,
        0 <= i <= args.len(),
        !is_value(args, i),
        is_reading_of(args, i, r),
        forall|j: int|
            0 <= j < i && !#[trigger] is_value(args, j) ==> fault_at(args, numbers, j) is None,
    ensures
        is_read(args, numbers, read_from(args, numbers, i, r)),
    decreases args.len() - i,
{
    reveal_strlit("--sese");
    reveal_strlit("--debug");
    reveal_strlit("--straight");
    reveal_strlit("--scale");
    reveal_strlit("--help");
    reveal_strlit("-h");
    reveal_strlit("-");
    if i < args.len() {
        let arg = args[i];
        assert(begins_with(arg, "-"@) == (arg.len() > 0 && arg[0] == '-')) by {
            if arg.len() > 0 && arg[0] == '-' {
                assert(arg.take(1) =~= "-"@);
            } else if begins_with(arg, "-"@) {
                assert(arg.take(1)[0] == "-"@[0]);
            }
        }
        assert("--sese"@[2] == 's' && "--debug"@[2] == 'd' && "--straight"@[2] == 's');
        assert("--scale"@[3] == 'c' && "--sese"@[3] == 'e' && "--straight"@[3] == 't');
        lemma_flags_stay(args, i, "--sese"@);
        lemma_flags_stay(args, i, "--debug"@);
        lemma_flags_stay(args, i, "--straight"@);
        let flag = arg == "--sese"@ || arg == "--debug"@ || arg == "--straight"@;
        if flag {
            let next = if arg == "--sese"@ {
                Reading { sese: true, ..r }
            } else if arg == "--debug"@ {
                Reading { debug: true, ..r }
            } else {
                Reading { straight: true, ..r }
            };
            assert(arg != "--scale"@);
            assert(!is_value(args, i + 1));
            assert(arg[0] == '-');
            assert(!is_positional(args, i));
            assert(is_reading_of(args, i + 1, next));
            lemma_read_from(args, numbers, i + 1, next);
        } else if arg == "--scale"@ {
            if i + 1 >= args.len() || !numbers[i + 1] {
                assert(fault_at(args, numbers, i) == Some(OptionsError::Scale));
            } else {
                assert(is_value(args, i + 1));
                assert(!is_value(args, i + 2));
                lemma_flags_stay(args, i + 1, "--sese"@);
                lemma_flags_stay(args, i + 1, "--debug"@);
                lemma_flags_stay(args, i + 1, "--straight"@);
                let next = Reading { scale: Some((i + 1) as usize), ..r };
                assert(arg[0] == '-');
                assert(!is_positional(args, i) && !is_positional(args, i + 1));
                assert(fault_at(args, numbers, i) is None);
                assert(is_reading_of(args, i + 2, next));
                lemma_read_from(args, numbers, i + 2, next);
            }
        } else if arg == "--help"@ || arg == "-h"@ {
            assert(fault_at(args, numbers, i) == Some(OptionsError::Usage));
        } else if begins_with(arg, "-"@) {
            assert(fault_at(args, numbers, i) == Some(OptionsError::Unknown(i as usize)));
        } else {
            let next = Reading { positional: r.positional.push(i as usize), ..r };
            assert(is_positional(args, i));
            assert(!is_value(args, i + 1));
            assert(next.positional[r.positional.len() as int] == i);
            assert forall|j: int| 0 <= j < i + 1 && #[trigger] is_positional(
                args,
                j,
            ) implies next.positional.contains(j as usize) by {
                if j < i {
                    let k = r.positional.index_of(j as usize);
                    assert(next.positional[k] == j as usize);
                }
            }
            assert(is_reading_of(args, i + 1, next));
            lemma_read_from(args, numbers, i + 1, next);
        }
    }
}

/// The first file name is that of the input and the second that of the output; there is no
/// third. What is asked for is what the options say.
pub proof fn law_options_name_two_files(
    args: Seq<Seq<char>>,
    numbers: Seq<bool>,
    result: Result<Options, OptionsError>,
)
    requires
        args.len() == numbers.len(),
        args.len() <= usize::MAX,
        is_outcome(read_from(args, numbers, 0, nothing_read()), result),
    ensures
        match result {
            Ok(o) => {
                &&& o.input < o.output < args.len()
                &&& is_positional(args, o.input as int)
                &&& is_positional(args, o.output as int)
                &&& forall|i: int|
                    0 <= i < args.len() && #[trigger] is_positional(args, i) ==> i == o.input || i
                        == o.output
                &&& o.sese == is_asked(args, args.len() as int, "--sese"@)
                &&& o.debug == is_asked(args, args.len() as int, "--debug"@)
                &&& o.straight == is_asked(args, args.len() as int, "--straight"@)
                &&& match o.scale {
                    Some(i) => i < args.len() && is_value(args, i as int) && forall|j: int|
                        i < j < args.len() ==> !#[trigger] is_value(args, j),
                    None => forall|j: int| 0 <= j < args.len() ==> !#[trigger] is_value(args, j),
                }
            },
            Err(_) => true,
        },
{
    law_options_are_those_asked_for(args, numbers);
    if let Ok(o) = result {
        let r = read_from(args, numbers, 0, nothing_read())->Ok_0;
        assert(r.positional[0] == o.input && r.positional[1] == o.output);
        assert forall|i: int| 0 <= i < args.len() && #[trigger] is_positional(
            args,
            i,
        ) implies i == o.input || i == o.output by {
            assert(r.positional.contains(i as usize));
        }
    }
}

} // verus!
