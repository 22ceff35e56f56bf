//! The errors that extraction can end in, and their messages.

use vstd::prelude::*;

verus! {

/// Every way in which dominant-colour extraction can fail.
#[derive(Debug, PartialEq, Eq)]
pub enum DominantColorError {
    /// The image holds no pixel (its size is zero, or nothing is left after sampling).
    EmptyImage,
    /// More colours were requested than the image has distinct colours.
    TooFewColors {
        /// The number of colours requested through `Config::max_colors`.
        requested: usize,
        /// The number of distinct colours in the (sampled) image.
        available: usize,
    },
    /// An internal invariant of an algorithm was broken.
    InternalError {
        /// What went wrong, in words.
        message: String,
    },
}

/// The decimal digit `d` as a character.
pub open spec fn digit_char(d: int) -> char {
    if d == 0 { '0' } else if d == 1 { '1' } else if d == 2 { '2' } else if d == 3 { '3' }
    else if d == 4 { '4' } else if d == 5 { '5' } else if d == 6 { '6' } else if d == 7 { '7' }
    else if d == 8 { '8' } else { '9' }
}

/// The decimal representation of `n`, without leading zeros.
pub open spec fn decimal(n: nat) -> Seq<char>
    decreases n,
{
    if n < 10 {
        seq![digit_char(n as int)]
    } else {
        decimal(n / 10).push(digit_char((n % 10) as int))
    }
}

/// The message of an error, as its `Display` form writes it.
pub open spec fn error_message(e: DominantColorError) -> Seq<char> {
    match e {
        DominantColorError::EmptyImage => "图片为空，没有可处理的像素"@,
        DominantColorError::TooFewColors { requested, available } =>
            "请求 "@ + decimal(requested as nat) + " 种颜色，但图片中只有 "@
                + decimal(available as nat) + " 种唯一颜色"@,
        DominantColorError::InternalError { message } => "算法内部错误："@ + message@,
    }
}

fn digit_str(d: usize) -> (s: &'static str)
    requires
        d < 10,
    ensures
        s@ == seq![digit_char(d as int)],
{
    proof {
        reveal_strlit("0");
        reveal_strlit("1");
        reveal_strlit("2");
        reveal_strlit("3");
        reveal_strlit("4");
        reveal_strlit("5");
        reveal_strlit("6");
        reveal_strlit("7");
        reveal_strlit("8");
        reveal_strlit("9");
    }
    if d == 0 { "0" } else if d == 1 { "1" } else if d == 2 { "2" } else if d == 3 { "3" }
    else if d == 4 { "4" } else if d == 5 { "5" } else if d == 6 { "6" } else if d == 7 { "7" }
    else if d == 8 { "8" } else { "9" }
}

/// Writes `n` in decimal.
pub fn usize_to_decimal(n: usize) -> (s: String)
    ensures
        s@ == decimal(n as nat),
    decreases n,
{
    if n < 10 {
        String::from_str(digit_str(n))
    } else {
        let mut s = usize_to_decimal(n / 10);
        s.append(digit_str(n % 10));
        s
    }
}

impl DominantColorError {
    /// Builds an [`InternalError`](DominantColorError::InternalError) with the given message.
    pub fn internal(msg: &str) -> (e: Self)
        ensures
            e matches DominantColorError::InternalError { message } && message@ == msg@,
    {
        DominantColorError::InternalError { message: String::from_str(msg) }
    }

    /// The error's message, in the words its `Display` form uses.
    pub fn to_string(&self) -> (s: String)
        ensures
            s@ == error_message(*self),
    {
        match self {
            DominantColorError::EmptyImage => String::from_str("图片为空，没有可处理的像素"),
            DominantColorError::TooFewColors { requested, available } => {
                let mut s = String::from_str("请求 ");
                let r = usize_to_decimal(*requested);
                s.append(r.as_str());
                s.append(" 种颜色，但图片中只有 ");
                let a = usize_to_decimal(*available);
                s.append(a.as_str());
                s.append(" 种唯一颜色");
                s
            },
            DominantColorError::InternalError { message } => {
                let mut s = String::from_str("算法内部错误：");
                s.append(message.as_str());
                s
            },
        }
    }
}

} // verus!
