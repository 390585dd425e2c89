//! Command-line argument resolution.
//!
//! The scanner takes `<IP>`, `-j <workers> <IP>`, or a help flag. Resolution
//! is total: every possible argument vector maps to a help request, a usage
//! error naming the offending argument, or a target address with a worker
//! count (four workers unless `-j` says otherwise).

use vstd::prelude::*;

verus! {

use crate::digits::is_u16_text;
use crate::digits::parse_u16;
use crate::digits::u16_text_val;
use crate::ip::ip_value;
use crate::ip::is_ip_text;
use crate::ip::parse_ip;
use crate::ip::IpAddress;
use vstd::string::StrSliceExecFns;

/// Why argument resolution failed.
#[derive(Clone, Copy, Debug, PartialEq, Eq, Structural)]
pub enum UsageError {
    /// No argument after the program name.
    TooFew,
    /// More than three arguments after the program name.
    TooMany,
    /// `-j` without exactly a count and an address after it.
    BadWorkerSyntax,
    /// The worker count is not an unsigned 16-bit decimal number.
    BadWorkerCount,
    /// The target is not valid IP address text.
    BadIp,
}

/// The outcome of resolving the command line.
#[derive(Clone, Copy, Debug, PartialEq, Eq, Structural)]
pub enum Resolution {
    /// A help flag: print the usage text, perform no scan, exit successfully.
    Help,
    /// A usage error: report it, perform no scan, exit with a failure code.
    Usage(UsageError),
    /// A target address and worker count to scan with.
    Run { target: IpAddress, workers: u16 },
}

impl UsageError {
    /// The diagnostic printed to standard error for this usage error.
    pub open spec fn spec_message(self) -> Seq<char> {
        match self {
            UsageError::TooFew => "Not enough arguments. Use -h or -help for usage instructions."@,
            UsageError::TooMany => "Too many arguments."@,
            UsageError::BadWorkerSyntax => "Usage: -j <num_threads> <IP>"@,
            UsageError::BadWorkerCount => "Invalid thread count"@,
            UsageError::BadIp => "Invalid IP address"@,
        }
    }

    /// Render the diagnostic for this usage error.
    pub fn message(&self) -> (s: String)
        ensures
            s@ == self.spec_message(),
    {
        match self {
            UsageError::TooFew => "Not enough arguments. Use -h or -help for usage instructions.".to_owned(),
            UsageError::TooMany => "Too many arguments.".to_owned(),
            UsageError::BadWorkerSyntax => "Usage: -j <num_threads> <IP>".to_owned(),
            UsageError::BadWorkerCount => "Invalid thread count".to_owned(),
            UsageError::BadIp => "Invalid IP address".to_owned(),
        }
    }
}

/// What a full argument vector (program name first) resolves to. A help flag
/// wins over everything else in position one; `-j` demands exactly four
/// arguments in all; the worker count defaults to four.
pub open spec fn spec_resolve(args: Seq<Seq<char>>) -> Resolution {
    if args.len() < 2 {
        Resolution::Usage(UsageError::TooFew)
    } else if args.len() > 4 {
        Resolution::Usage(UsageError::TooMany)
    } else if args[1] == "-h"@ || args[1] == "-help"@ {
        Resolution::Help
    } else if args[1] == "-j"@ {
        if args.len() != 4 {
            Resolution::Usage(UsageError::BadWorkerSyntax)
        } else if !is_u16_text(args[2]) {
            Resolution::Usage(UsageError::BadWorkerCount)
        } else if !is_ip_text(args[3]) {
            Resolution::Usage(UsageError::BadIp)
        } else {
            Resolution::Run { target: ip_value(args[3]), workers: u16_text_val(args[2]) as u16 }
        }
    } else if !is_ip_text(args[1]) {
        Resolution::Usage(UsageError::BadIp)
    } else {
        Resolution::Run { target: ip_value(args[1]), workers: 4u16 }
    }
}

/// Copy the characters of a string slice out into a vector.
pub fn str_to_chars(s: &str) -> (v: Vec<char>)
    ensures
        v@ == s@,
{
    let n = s.unicode_len();
    let mut v: Vec<char> = Vec::new();
    let mut k: usize = 0;
    while k < n
        invariant
            k <= n == s@.len(),
            v@ =~= s@.take(k as int),
        decreases n - k,
    {
        v.push(s.get_char(k));
        proof {
            assert(v@ =~= s@.take(k + 1));
        }
        k = k + 1;
    }
    proof {
        assert(v@ =~= s@);
    }
    v
}

/// Compare a character vector against a string slice.
fn chars_eq(v: &Vec<char>, lit: &str) -> (r: bool)
    ensures
        r == (v@ == lit@),
{
    let n = lit.unicode_len();
    if v.len() != n {
        return false;
    }
    let mut k: usize = 0;
    while k < n
        invariant
            k <= n == lit@.len(),
            v@.len() == n,
            forall|t: int| 0 <= t < k ==> v@[t] == lit@[t],
        decreases n - k,
    {
        if v[k] != lit.get_char(k) {
            return false;
        }
        k = k + 1;
    }
    proof {
        assert(v@ =~= lit@);
    }
    true
}

/// Resolve the full argument vector, program name first, to exactly what
/// `spec_resolve` says.
pub fn resolve(args: &Vec<String>) -> (r: Resolution)
    ensures
        r == spec_resolve(args.deep_view()),
{
    let ghost a = args.deep_view();
    proof {
        assert(a.len() == args@.len());
        assert(forall|t: int| 0 <= t < a.len() ==> a[t] == (#[trigger] args@[t])@);
    }
    if args.len() < 2 {
        return Resolution::Usage(UsageError::TooFew);
    }
    if args.len() > 4 {
        return Resolution::Usage(UsageError::TooMany);
    }
    let arg1 = str_to_chars(args[1].as_str());
    if chars_eq(&arg1, "-h") || chars_eq(&arg1, "-help") {
        return Resolution::Help;
    }
    if chars_eq(&arg1, "-j") {
        if args.len() != 4 {
            return Resolution::Usage(UsageError::BadWorkerSyntax);
        }
        let arg2 = str_to_chars(args[2].as_str());
        let workers = match parse_u16(&arg2) {
            Some(w) => w,
            None => {
                return Resolution::Usage(UsageError::BadWorkerCount);
            },
        };
        let arg3 = str_to_chars(args[3].as_str());
        match parse_ip(&arg3) {
            Some(target) => Resolution::Run { target, workers },
            None => Resolution::Usage(UsageError::BadIp),
        }
    } else {
        match parse_ip(&arg1) {
            Some(target) => Resolution::Run { target, workers: 4 },
            None => Resolution::Usage(UsageError::BadIp),
        }
    }
}

/// The usage text shown for `-h` or `-help`.
pub fn usage_text() -> (s: String)
    ensures
        s@ == "Usage: 
                \n  ip_snipper.exe -h or -help            Show this message
                \n  ip_snipper.exe <IP>                   Scan using default 4 threads
                \n  ip_snipper.exe -j <num_threads> <IP>   Scan using a custom number of threads"@,
{
    "Usage: 
                \n  ip_snipper.exe -h or -help            Show this message
                \n  ip_snipper.exe <IP>                   Scan using default 4 threads
                \n  ip_snipper.exe -j <num_threads> <IP>   Scan using a custom number of threads".to_owned()
}

} // verus!
