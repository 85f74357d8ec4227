//! Errors of the packer.

use vstd::prelude::*;

verus! {

/// Errors produced while loading or packing sprites.
#[derive(Debug)]
pub enum Error {
    /// No sprites were found under the given path.
    NoSprites(String),
    /// Sprites could not fit within the configured maximum atlas size.
    PackFailed {
        /// Attempted atlas width.
        width: u32,
        /// Attempted atlas height.
        height: u32,
    },
    /// A single sprite is larger than the maximum atlas dimensions.
    SpriteTooLarge {
        /// Sprite name.
        name: String,
        /// Sprite width in pixels.
        sw: u32,
        /// Sprite height in pixels.
        sh: u32,
        /// Atlas max width.
        aw: u32,
        /// Atlas max height.
        ah: u32,
    },
}

/// The character of decimal digit `d` (`0 <= d < 10`).
pub open spec fn digit_char(d: int) -> char {
    if d == 0 {
        '0'
    } else if d == 1 {
        '1'
    } else if d == 2 {
        '2'
    } else if d == 3 {
        '3'
    } else if d == 4 {
        '4'
    } else if d == 5 {
        '5'
    } else if d == 6 {
        '6'
    } else if d == 7 {
        '7'
    } else if d == 8 {
        '8'
    } else {
        '9'
    }
}

/// `n` written in decimal, without leading zeros.
pub open spec fn decimal(n: nat) -> Seq<char>
    decreases n,
{
    if n < 10 {
        seq![digit_char(n as int)]
    } else {
        decimal(n / 10).push(digit_char((n % 10) as int))
    }
}

/// The message that describes an error.
pub open spec fn error_text(e: Error) -> Seq<char> {
    match e {
        Error::NoSprites(path) => "no PNG sprites found in "@ + path@,
        Error::PackFailed { width, height } => "failed to pack sprites into "@ + decimal(width as nat)
            + "x"@ + decimal(height as nat) + " (try a larger --max-size)"@,
        Error::SpriteTooLarge { name, sw, sh, aw, ah } => "sprite '"@ + name@
            + "' is larger than the atlas ("@ + decimal(sw as nat) + "x"@ + decimal(sh as nat)
            + " > "@ + decimal(aw as nat) + "x"@ + decimal(ah as nat) + ")"@,
    }
}

/// The one-character string of decimal digit `d`.
fn digit_str(d: u32) -> (r: &'static str)
    requires
        d < 10,
    ensures
        r@ == seq![digit_char(d as int)],
{
    proof {
        reveal_strlit("0");
        reveal_strlit("1");
        reveal_strlit("2");
        reveal_strlit("3");
        reveal_strlit("4");
        reveal_strlit("5");
        reveal_strlit("6");
        reveal_strlit("7");
        reveal_strlit("8");
        reveal_strlit("9");
    }
    match d {
        0 => "0",
        1 => "1",
        2 => "2",
        3 => "3",
        4 => "4",
        5 => "5",
        6 => "6",
        7 => "7",
        8 => "8",
        _ => "9",
    }
}

/// Appends `n` in decimal to `s`.
fn push_decimal(s: &mut String, n: u32)
    ensures
        final(s)@ == old(s)@ + decimal(n as nat),
    decreases n,
{
    if n >= 10 {
        push_decimal(s, n / 10);
    }
    s.append(digit_str(n % 10));
    proof {
        if n >= 10 {
            assert(decimal(n as nat) == decimal((n / 10) as nat).push(digit_char((n % 10) as int)));
        }
        assert(old(s)@ + decimal(n as nat) =~= final(s)@);
    }
}

impl Error {
    /// The message that describes the error, as it is shown to the user.
    pub fn message(&self) -> (r: String)
        ensures
            r@ == error_text(*self),
    {
        match self {
            Error::NoSprites(path) => {
                let mut s = String::from_str("no PNG sprites found in ");
                s.append(path.as_str());
                s
            },
            Error::PackFailed { width, height } => {
                let mut s = String::from_str("failed to pack sprites into ");
                push_decimal(&mut s, *width);
                s.append("x");
                push_decimal(&mut s, *height);
                s.append(" (try a larger --max-size)");
                s
            },
            Error::SpriteTooLarge { name, sw, sh, aw, ah } => {
                let mut s = String::from_str("sprite '");
                s.append(name.as_str());
                s.append("' is larger than the atlas (");
                push_decimal(&mut s, *sw);
                s.append("x");
                push_decimal(&mut s, *sh);
                s.append(" > ");
                push_decimal(&mut s, *aw);
                s.append("x");
                push_decimal(&mut s, *ah);
                s.append(")");
                s
            },
        }
    }
}

} // verus!
