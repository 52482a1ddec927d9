use vstd::prelude::*;

use crate::text::{ascii_lowercase, equals_ignoring_ascii_case, owned};

verus! {

/// How per-element losses are reduced to a result.
#[derive(Debug, Clone, Copy, PartialEq, Eq, Hash, Structural)]
pub enum Reduction {
    /// No reduction: the per-element losses themselves (parsed from `none`).
    NoReduction,
    /// Mean over all elements (sum divided by the number of elements).
    Mean,
    /// Sum of all elements.
    Sum,
    /// Mean over the batch axis only (sum divided by the batch size).
    BatchMean,
}

/// The lower-case name under which a reduction mode is parsed.
pub open spec fn reduction_name(r: Reduction) -> Seq<char> {
    match r {
        Reduction::NoReduction => "none"@,
        Reduction::Mean => "mean"@,
        Reduction::Sum => "sum"@,
        Reduction::BatchMean => "batchmean"@,
    }
}

/// Error returned when a string names no reduction mode; it keeps the string.
#[derive(Debug, Clone)]
pub struct ReductionParseError(String);

impl ReductionParseError {
    /// The string that failed to parse.
    pub closed spec fn rejected(self) -> Seq<char> {
        self.0@
    }

    /// The string that failed to parse.
    pub fn input(&self) -> (s: &str)
        ensures
            s@ == self.rejected(),
    {
        self.0.as_str()
    }

    /// Human-readable description of the error.
    pub fn message(&self) -> (m: String)
        ensures
            m@ == "invalid reduction mode '"@ + self.rejected()
                + "', expected one of: none, mean, sum, batchmean"@,
    {
        let mut m = String::from_str("invalid reduction mode '");
        m.append(self.0.as_str());
        m.append("', expected one of: none, mean, sum, batchmean");
        m
    }
}

impl Reduction {
    /// Parses a reduction mode by name, ignoring the case of letters:
    /// `none`, `mean`, `sum` or `batchmean`.
    ///
    /// Only ASCII letters are folded. No other character lower-cases to a
    /// letter of these four names except KELVIN SIGN (to `k`), which none of
    /// them contains, so this agrees with full Unicode lower-casing.
    pub fn parse(s: &str) -> (r: Result<Reduction, ReductionParseError>)
        ensures
            r matches Ok(m) ==> ascii_lowercase(s@) == reduction_name(m),
            r is Err <==> (ascii_lowercase(s@) != "none"@ && ascii_lowercase(s@) != "mean"@
                && ascii_lowercase(s@) != "sum"@ && ascii_lowercase(s@) != "batchmean"@),
            r matches Err(e) ==> e.rejected() == s@,
    {
        if equals_ignoring_ascii_case(s, "none") {
            Ok(Reduction::NoReduction)
        } else if equals_ignoring_ascii_case(s, "mean") {
            Ok(Reduction::Mean)
        } else if equals_ignoring_ascii_case(s, "sum") {
            Ok(Reduction::Sum)
        } else if equals_ignoring_ascii_case(s, "batchmean") {
            Ok(Reduction::BatchMean)
        } else {
            Err(ReductionParseError(owned(s)))
        }
    }
}

impl core::str::FromStr for Reduction {
    type Err = ReductionParseError;

    /// The same as [`Reduction::parse`].
    fn from_str(s: &str) -> (r: Result<Self, Self::Err>)
        ensures
            r matches Ok(m) ==> ascii_lowercase(s@) == reduction_name(m),
            r is Err <==> (ascii_lowercase(s@) != "none"@ && ascii_lowercase(s@) != "mean"@
                && ascii_lowercase(s@) != "sum"@ && ascii_lowercase(s@) != "batchmean"@),
            r matches Err(e) ==> e.rejected() == s@,
    {
        Reduction::parse(s)
    }
}

} // verus!
