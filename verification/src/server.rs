//! Server-facing data types and request plumbing that carries no I/O:
//! the run arguments, the error payload shape, the result record shapes,
//! the launch hint lines, and the comma-separated list splitting used
//! when queries arrive as one string.

use vstd::prelude::*;
use vstd::string::StrSliceExecFns;
use vstd::string::StringExecFns;

verus! {

/// Arguments of the server run: where the ontology files live and where
/// to listen.
#[derive(Debug, Clone)]
pub struct Args {
    /// Path to the directory with the HPO files.
    pub path_hpo_dir: String,
    /// Whether to suppress printing hints.
    pub suppress_hints: bool,
    /// IP to listen on.
    pub listen_host: String,
    /// Port to listen on.
    pub listen_port: u16,
}

/// The error payload reported to a caller.
#[derive(Debug, Clone)]
pub struct CustomError {
    /// The error text.
    pub err: String,
}

impl CustomError {
    /// Wraps an error text as a reportable payload.
    pub fn new(err: String) -> (r: CustomError)
        ensures
            r.err == err,
    {
        CustomError { err }
    }
}

/// Representation of a gene in lookup responses.
#[derive(Debug, Clone, Default, PartialEq, Eq, PartialOrd, Ord)]
pub struct ResultGene {
    /// The NCBI gene identifier.
    pub ncbi_gene_id: u32,
    /// The gene symbol.
    pub gene_symbol: String,
    /// The HGNC gene identifier, when a cross-reference exists.
    pub hgnc_id: Option<String>,
}

/// Representation of an HPO term in lookup responses.
#[derive(Debug, Clone, Default, PartialEq, Eq, PartialOrd, Ord)]
pub struct ResultHpoTerm {
    /// The term identifier.
    pub term_id: String,
    /// The term name.
    pub name: String,
}

/// The character standing at a decimal digit's value.
pub open spec fn digit_char(d: int) -> char {
    if d == 0 {
        '0'
    } else if d == 1 {
        '1'
    } else if d == 2 {
        '2'
    } else if d == 3 {
        '3'
    } else if d == 4 {
        '4'
    } else if d == 5 {
        '5'
    } else if d == 6 {
        '6'
    } else if d == 7 {
        '7'
    } else if d == 8 {
        '8'
    } else {
        '9'
    }
}

/// The decimal digits of a non-negative number, most significant first.
pub open spec fn dec_digits(n: int) -> Seq<char>
    decreases n,
{
    if n < 10 {
        seq![digit_char(n)]
    } else {
        dec_digits(n / 10).push(digit_char(n % 10))
    }
}

/// One decimal digit as text.
fn digit_str(d: u16) -> (r: &'static str)
    requires
        d < 10,
    ensures
        r@ =~= seq![digit_char(d as int)],
{
    proof {
        reveal_strlit("0");
        reveal_strlit("1");
        reveal_strlit("2");
        reveal_strlit("3");
        reveal_strlit("4");
        reveal_strlit("5");
        reveal_strlit("6");
        reveal_strlit("7");
        reveal_strlit("8");
        reveal_strlit("9");
    }
    match d {
        0 => "0",
        1 => "1",
        2 => "2",
        3 => "3",
        4 => "4",
        5 => "5",
        6 => "6",
        7 => "7",
        8 => "8",
        _ => "9",
    }
}

/// Writes a port number as decimal text.
pub fn u16_to_string(v: u16) -> (r: String)
    ensures
        r@ == dec_digits(v as int),
    decreases v,
{
    if v < 10 {
        let s = digit_str(v).to_owned();
        proof {
            assert(s@ =~= dec_digits(v as int));
        }
        s
    } else {
        let mut s = u16_to_string(v / 10);
        s.append(digit_str(v % 10));
        proof {
            assert((v / 10) as int == (v as int) / 10);
            assert((v % 10) as int == (v as int) % 10);
            assert(s@ =~= dec_digits((v as int) / 10).push(digit_char((v as int) % 10)));
        }
        s
    }
}

/// The hint lines to log at launch: the server address, and — unless
/// suppressed — where the interactive documentation is served.
pub fn print_hints(args: &Args) -> (r: Vec<String>)
    ensures
        r@.len() == (if args.suppress_hints {
            1int
        } else {
            2int
        }),
        r@[0]@ == "Launching server main on http://"@ + args.listen_host@ + ":"@ + dec_digits(
            args.listen_port as int,
        ) + " ..."@,
        !args.suppress_hints ==> r@[1]@ == "  SEE SWAGGER UI FOR INTERACTIVE DOCS: http://"@
            + args.listen_host@ + ":"@ + dec_digits(args.listen_port as int) + "/swagger-ui/"@,
{
    let port = u16_to_string(args.listen_port);
    let mut line1 = String::new();
    line1.append("Launching server main on http://");
    line1.append(args.listen_host.as_str());
    line1.append(":");
    line1.append(port.as_str());
    line1.append(" ...");
    proof {
        assert(line1@ =~= "Launching server main on http://"@ + args.listen_host@ + ":"@
            + dec_digits(args.listen_port as int) + " ..."@);
    }
    let mut r: Vec<String> = Vec::new();
    r.push(line1);
    if args.suppress_hints {
        return r;
    }
    let mut line2 = String::new();
    line2.append("  SEE SWAGGER UI FOR INTERACTIVE DOCS: http://");
    line2.append(args.listen_host.as_str());
    line2.append(":");
    line2.append(port.as_str());
    line2.append("/swagger-ui/");
    proof {
        assert(line2@ =~= "  SEE SWAGGER UI FOR INTERACTIVE DOCS: http://"@ + args.listen_host@
            + ":"@ + dec_digits(args.listen_port as int) + "/swagger-ui/"@);
    }
    r.push(line2);
    r
}

/// Position of the first comma, or the length when there is none.
pub open spec fn first_comma(l: Seq<char>) -> int
    decreases l.len(),
{
    if l.len() == 0 {
        0
    } else if l[0] == ',' {
        0
    } else {
        1 + first_comma(l.drop_first())
    }
}

/// The comma-separated pieces of a text, in order; a text without a
/// comma is one piece, so the empty text is one empty piece.
pub open spec fn split_commas(l: Seq<char>) -> Seq<Seq<char>>
    decreases l.len(),
{
    let p = first_comma(l);
    if !(0 <= p < l.len()) {
        seq![l]
    } else {
        seq![l.subrange(0, p)] + split_commas(l.subrange(p + 1, l.len() as int))
    }
}

/// A scan that passed `p` characters without a comma and stopped at a
/// comma or at the end found `first_comma`.
proof fn lemma_first_comma_at(l: Seq<char>, p: int)
    requires
        0 <= p <= l.len(),
        forall|i: int| 0 <= i < p ==> l[i] != ',',
        p < l.len() ==> l[p] == ',',
    ensures
        first_comma(l) == p,
    decreases l.len(),
{
    if l.len() == 0 {
    } else if p == 0 {
    } else {
        assert(l[0] != ',');
        assert forall|i: int| 0 <= i < p - 1 implies l.drop_first()[i] != ',' by {
            assert(l.drop_first()[i] == l[i + 1]);
        }
        if p - 1 < l.drop_first().len() {
            assert(l.drop_first()[p - 1] == l[p]);
        }
        lemma_first_comma_at(l.drop_first(), p - 1);
    }
}

/// Splits a comma-separated list of strings into its pieces.
pub fn split_comma(s: &str) -> (r: Vec<String>)
    ensures
        r@.len() == split_commas(s@).len(),
        forall|i: int| 0 <= i < r@.len() ==> (#[trigger] r@[i])@ == split_commas(s@)[i],
    decreases s@.len(),
{
    let n: usize = s.unicode_len();
    let mut p: usize = 0;
    while p < n && s.get_char(p) != ','
        invariant
            n == s@.len(),
            p <= n,
            forall|i: int| 0 <= i < p ==> s@[i] != ',',
        decreases n - p,
    {
        p = p + 1;
    }
    proof {
        lemma_first_comma_at(s@, p as int);
    }
    if p == n {
        let mut r: Vec<String> = Vec::new();
        r.push(s.to_owned());
        proof {
            assert(split_commas(s@) =~= seq![s@]);
            assert(r@[0]@ == split_commas(s@)[0]);
        }
        r
    } else {
        let head = s.substring_char(0, p).to_owned();
        let rest = s.substring_char(p + 1, n);
        let mut r = split_comma(rest);
        let ghost tail_pieces = split_commas(rest@);
        r.insert(0, head);
        proof {
            let pieces = split_commas(s@);
            assert(rest@ == s@.subrange(p + 1, n as int));
            assert(pieces =~= seq![s@.subrange(0, p as int)] + tail_pieces);
            assert(head@ == s@.subrange(0, p as int));
            assert forall|i: int| 0 <= i < r@.len() implies (#[trigger] r@[i])@ == pieces[i] by {
                if i > 0 {
                    assert(r@[i] == r@.subrange(1, r@.len() as int)[i - 1]);
                    assert(pieces[i] == tail_pieces[i - 1]);
                }
            }
        }
        r
    }
}

/// Splits a comma-separated list, reading the empty text as "nothing
/// given" rather than as one empty piece.
pub fn split_comma_opt(s: &str) -> (r: Option<Vec<String>>)
    ensures
        r is Some <==> s@.len() > 0,
        r is Some ==> r->0@.len() == split_commas(s@).len() && forall|i: int|
            0 <= i < r->0@.len() ==> (#[trigger] r->0@[i])@ == split_commas(s@)[i],
{
    if s.unicode_len() == 0 {
        None
    } else {
        Some(split_comma(s))
    }
}

} // verus!
