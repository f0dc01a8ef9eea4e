//! Command-line configuration: which board to play.  A definition is either
//! a named preset or `width[,height],mines`.

use vstd::prelude::*;

verus! {

/// The named preset does not exist.
#[derive(Debug, PartialEq, Eq, Copy, Clone, Structural)]
pub struct PresetDoesNotExist;

impl PresetDoesNotExist {
    /// The message shown for this failure.
    pub fn message(&self) -> &'static str {
        "Requested preset does not exist."
    }
}

/// Why a board definition failed to parse.
#[derive(Debug, PartialEq, Eq, Copy, Clone, Structural)]
pub enum ParseDefError {
    Int,
    Preset(PresetDoesNotExist),
    TooShort,
    TooMany,
}

impl ParseDefError {
    /// The message shown for this failure.
    pub fn message(&self) -> &'static str {
        match self {
            ParseDefError::Int => "Not a number.",
            ParseDefError::Preset(p) => p.message(),
            ParseDefError::TooShort => "Not enough arguments provided.",
            ParseDefError::TooMany => "Too many arguments provided.",
        }
    }
}

/// The classic board sizes.
#[derive(Debug, PartialEq, Eq, Copy, Clone, Structural)]
pub enum Preset {
    Beginner,
    Intermediate,
    Advanced,
}

impl Preset {
    /// The preset's display name.
    pub fn name(&self) -> &'static str {
        match self {
            Preset::Beginner => "Beginner",
            Preset::Intermediate => "Intermediate",
            Preset::Advanced => "Advanced",
        }
    }

    /// Parse a preset name given as bytes.
    pub fn parse(s: &[u8]) -> (r: Result<Preset, PresetDoesNotExist>)
        ensures
            r is Err ==> r == Err::<Preset, PresetDoesNotExist>(PresetDoesNotExist),
    {
        if bytes_eq_str(s, 0, s.len(), "beginner") {
            Ok(Preset::Beginner)
        } else if bytes_eq_str(s, 0, s.len(), "intermediate") {
            Ok(Preset::Intermediate)
        } else if bytes_eq_str(s, 0, s.len(), "advanced") {
            Ok(Preset::Advanced)
        } else {
            Err(PresetDoesNotExist)
        }
    }
}

impl core::str::FromStr for Preset {
    type Err = PresetDoesNotExist;

    fn from_str(s: &str) -> Result<Preset, PresetDoesNotExist> {
        Preset::parse(s.as_bytes())
    }
}

/// A board definition: a preset, or a width, an optional height, and a mine
/// count.
#[derive(Debug, PartialEq, Eq, Copy, Clone)]
pub enum Def {
    Preset(Preset),
    Descrip { width: usize, height: Option<usize>, mines: u64 },
}

/// Does `s[from..to]` spell exactly the ASCII text `pat`?
fn bytes_eq_str(s: &[u8], from: usize, to: usize, pat: &str) -> (r: bool)
    requires
        from <= to <= s@.len(),
{
    let pb = pat.as_bytes();
    if to - from != pb.len() {
        return false;
    }
    let mut i: usize = 0;
    while i < pb.len()
        invariant
            from <= to <= s@.len(),
            to - from == pb@.len(),
            i <= pb@.len(),
        decreases pb@.len() - i,
    {
        if s[from + i] != pb[i] {
            return false;
        }
        i += 1;
    }
    true
}

/// Parse `s[from..to]` as a decimal number.
fn parse_u64(s: &[u8], from: usize, to: usize) -> (r: Result<u64, ParseDefError>)
    requires
        from <= to <= s@.len(),
    ensures
        r is Err ==> r == Err::<u64, ParseDefError>(ParseDefError::Int),
{
    if from == to {
        return Err(ParseDefError::Int);
    }
    let mut v: u64 = 0;
    let mut i: usize = from;
    while i < to
        invariant
            from <= i <= to <= s@.len(),
        decreases to - i,
    {
        let b = s[i];
        if b < 48 || b > 57 {
            return Err(ParseDefError::Int);
        }
        let d = (b - 48) as u64;
        v = match v.checked_mul(10) {
            Some(x) => x,
            None => {
                return Err(ParseDefError::Int);
            },
        };
        v = match v.checked_add(d) {
            Some(x) => x,
            None => {
                return Err(ParseDefError::Int);
            },
        };
        i += 1;
    }
    Ok(v)
}

/// Parse `s[from..to]` as a decimal number that fits a `usize`.
fn parse_usize(s: &[u8], from: usize, to: usize) -> (r: Result<usize, ParseDefError>)
    requires
        from <= to <= s@.len(),
    ensures
        r is Err ==> r == Err::<usize, ParseDefError>(ParseDefError::Int),
{
    let v = match parse_u64(s, from, to) {
        Ok(v) => v,
        Err(e) => {
            return Err(e);
        },
    };
    if v > (usize::MAX as u64) {
        return Err(ParseDefError::Int);
    }
    Ok(v as usize)
}

impl Def {
    /// Parse a definition given as bytes: a preset name, `width,mines`, or
    /// `width,height,mines`.
    pub fn parse(s: &[u8]) -> (r: Result<Def, ParseDefError>) {
        let mut commas: Vec<usize> = Vec::new();
        let mut i: usize = 0;
        while i < s.len()
            invariant
                i <= s@.len(),
                forall|k: int| 0 <= k < commas@.len() ==> (#[trigger] commas@[k]) < s@.len(),
                forall|k: int, t: int|
                    0 <= k < t < commas@.len() ==> commas@[k] < commas@[t],
                forall|k: int| 0 <= k < commas@.len() ==> commas@[k] < i,
            decreases s@.len() - i,
        {
            if s[i] == 44 {
                commas.push(i);
            }
            i += 1;
        }
        if commas.len() == 0 {
            match Preset::parse(s) {
                Ok(p) => Ok(Def::Preset(p)),
                Err(e) => Err(ParseDefError::Preset(e)),
            }
        } else if commas.len() == 1 {
            let c = commas[0];
            let width = match parse_usize(s, 0, c) {
                Ok(v) => v,
                Err(e) => {
                    return Err(e);
                },
            };
            let mines = match parse_u64(s, c + 1, s.len()) {
                Ok(v) => v,
                Err(e) => {
                    return Err(e);
                },
            };
            Ok(Def::Descrip { width, height: None, mines })
        } else if commas.len() == 2 {
            let c0 = commas[0];
            let c1 = commas[1];
            let width = match parse_usize(s, 0, c0) {
                Ok(v) => v,
                Err(e) => {
                    return Err(e);
                },
            };
            let height = match parse_usize(s, c0 + 1, c1) {
                Ok(v) => v,
                Err(e) => {
                    return Err(e);
                },
            };
            let mines = match parse_u64(s, c1 + 1, s.len()) {
                Ok(v) => v,
                Err(e) => {
                    return Err(e);
                },
            };
            Ok(Def::Descrip { width, height: Some(height), mines })
        } else {
            Err(ParseDefError::TooMany)
        }
    }

    /// The definition's display form, briefly.
    pub fn describe(&self) -> &'static str {
        match self {
            Def::Preset(p) => p.name(),
            Def::Descrip { .. } => "Custom board",
        }
    }
}

impl core::str::FromStr for Def {
    type Err = ParseDefError;

    fn from_str(s: &str) -> Result<Def, ParseDefError> {
        Def::parse(s.as_bytes())
    }
}

/// The command-line options: one board definition.
#[derive(Debug, PartialEq, Eq, Copy, Clone)]
pub struct Opts {
    pub def: Def,
}

} // verus!
