//! The patterns as they are asked for, one optional pattern per color, and
//! their compilation into pattern entries.

use crate::color::Color;
use crate::pattern::{compile_pattern, compiled, Opt};
use vstd::prelude::*;
use vstd::string::*;

verus! {

/// For each of the seven named colors the pattern to show in it, if any, as
/// the pattern's source and its priority.
#[derive(Debug)]
pub struct Opts {
    pub red: Option<(String, usize)>,
    pub green: Option<(String, usize)>,
    pub yellow: Option<(String, usize)>,
    pub blue: Option<(String, usize)>,
    pub magenta: Option<(String, usize)>,
    pub cyan: Option<(String, usize)>,
    pub white: Option<(String, usize)>,
}

/// A pattern source that is not a valid regular expression.
#[derive(Debug)]
pub struct InvalidRegex {
    pub pattern: String,
}

/// The entry of one color: the color with its pattern, or nothing.
pub open spec fn entry(color: Color, slot: &Option<(String, usize)>) -> Seq<
    (Color, &(String, usize)),
> {
    match slot {
        Some(pattern) => seq![(color, pattern)],
        None => Seq::empty(),
    }
}

/// The pattern entry that the source `pattern.0` with the priority
/// `pattern.1` gives in `color`, where the source is a valid expression.
pub open spec fn opt_of(color: Color, pattern: &(String, usize)) -> Opt {
    Opt { color, regex: compiled(pattern.0@)->0, index: pattern.1 }
}

/// The pattern entries of `patterns`, one for one.
pub open spec fn opts_of(patterns: Seq<(Color, &(String, usize))>) -> Seq<Opt> {
    patterns.map_values(|pattern: (Color, &(String, usize))| opt_of(pattern.0, pattern.1))
}

/// Appends the entry of one color to `patterns`.
fn push_entry<'a>(
    patterns: &mut Vec<(Color, &'a (String, usize))>,
    color: Color,
    slot: &'a Option<(String, usize)>,
)
    ensures
        final(patterns)@ == old(patterns)@ + entry(color, slot),
{
    if let Some(pattern) = slot {
        patterns.push((color, pattern));
    }
    assert(patterns@ =~= old(patterns)@ + entry(color, slot));
}

impl Default for Opts {
    /// No pattern for any color.
    fn default() -> (opts: Self)
        ensures
            opts.listed() == Seq::<(Color, &(String, usize))>::empty(),
    {
        let opts = Opts {
            red: None,
            green: None,
            yellow: None,
            blue: None,
            magenta: None,
            cyan: None,
            white: None,
        };
        assert(opts.listed() =~= Seq::empty());
        opts
    }
}

impl Opts {
    /// The patterns that are present, each with its color, in the order red,
    /// green, yellow, blue, magenta, cyan, white.
    pub open spec fn listed(&self) -> Seq<(Color, &(String, usize))> {
        entry(Color::Red, &self.red) + entry(Color::Green, &self.green) + entry(
            Color::Yellow,
            &self.yellow,
        ) + entry(Color::Blue, &self.blue) + entry(Color::Magenta, &self.magenta) + entry(
            Color::Cyan,
            &self.cyan,
        ) + entry(Color::White, &self.white)
    }

    /// Lists the patterns that are present, each with its color.
    pub fn patterns(&self) -> (patterns: Vec<(Color, &(String, usize))>)
        ensures
            patterns@ == self.listed(),
    {
        let mut patterns = Vec::new();
        push_entry(&mut patterns, Color::Red, &self.red);
        assert(patterns@ =~= entry(Color::Red, &self.red));
        push_entry(&mut patterns, Color::Green, &self.green);
        push_entry(&mut patterns, Color::Yellow, &self.yellow);
        push_entry(&mut patterns, Color::Blue, &self.blue);
        push_entry(&mut patterns, Color::Magenta, &self.magenta);
        push_entry(&mut patterns, Color::Cyan, &self.cyan);
        push_entry(&mut patterns, Color::White, &self.white);
        patterns
    }

    /// Compiles the patterns that are present into pattern entries, in the
    /// order of `patterns`. Fails on the first source that is not a valid
    /// regular expression, and names it.
    pub fn compile(&self) -> (made: Result<Vec<Opt>, InvalidRegex>)
        ensures
            match made {
                Ok(opts) => {
                    &&& forall|i: int|
                        0 <= i < self.listed().len() ==> compiled(
                            (#[trigger] self.listed()[i]).1.0@,
                        ) is Some
                    &&& opts@ == opts_of(self.listed())
                },
                Err(error) => exists|i: int|
                    {
                        &&& 0 <= i < self.listed().len()
                        &&& compiled((#[trigger] self.listed()[i]).1.0@) is None
                        &&& error.pattern@ == self.listed()[i].1.0@
                        &&& forall|j: int|
                            0 <= j < i ==> compiled((#[trigger] self.listed()[j]).1.0@) is Some
                    },
            },
    {
        let patterns = self.patterns();
        let mut opts: Vec<Opt> = Vec::new();
        for i in 0..patterns.len()
            invariant
                patterns@ == self.listed(),
                forall|j: int| 0 <= j < i ==> compiled((#[trigger] patterns@[j]).1.0@) is Some,
                opts@ == opts_of(patterns@.take(i as int)),
        {
            let (color, pattern) = patterns[i];
            match compile_pattern(pattern.0.as_str()) {
                Ok(regex) => {
                    opts.push(Opt { color, regex, index: pattern.1 });
                    assert(opts@ =~= opts_of(patterns@.take(i + 1)));
                },
                Err(_) => {
                    return Err(InvalidRegex { pattern: pattern.0.clone() });
                },
            }
        }
        assert(patterns@.take(patterns.len() as int) =~= patterns@);
        Ok(opts)
    }
}

} // verus!
