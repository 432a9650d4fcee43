//! The operator command surface: a whitespace-tokenized command line with a
//! backtick quoting convention, parsed into a small set of orchestration
//! decisions.  Unrecognized verbs or arities fall back to the help decision
//! and are otherwise ignored.

use crate::types::Ratio;
use vstd::prelude::*;
use vstd::string::StrSliceExecFns;

verus! {

/// What an operator command asks the orchestrator to do.
pub enum Decision {
    /// Print the list of commands (also the fallback for anything
    /// unrecognized or malformed).
    Help,
    /// Stop the program.
    Quit,
    /// Ingest a file line by line.
    ImportLines(String),
    /// Show every category with more than one member.
    ShowCategories,
    /// Generate a reply on the console source.
    Respond,
    /// Tell one message to the lexicon.
    Tell(String),
    /// Start the raw socket listener.
    ConnectServer,
    /// Connect an IRC transport with the given configuration file.
    ConnectIrc(String),
    /// Connect a Discord transport with the given configuration file.
    ConnectDiscord(String),
    /// Set the cocategorization ratio as an exact fraction.
    SetCocategoryRatio(Ratio),
    /// Report the cocategorization ratio.
    GetCocategoryRatio,
    /// Set the drift travel distance.
    SetTravelDistance(u32),
    /// Report the drift travel distance.
    GetTravelDistance,
    /// Set the number of cocategorization attempts per learning step.
    SetCocategorizeMagnitude(u32),
    /// Report the cocategorization magnitude.
    GetCocategorizeMagnitude,
    /// Set the edge-distance budget for preceding contexts.
    SetForwardEdgeDistance(usize),
    /// Report the forward edge distance.
    GetForwardEdgeDistance,
    /// Set the edge-distance budget for following contexts.
    SetBackwardEdgeDistance(usize),
    /// Report the backward edge distance.
    GetBackwardEdgeDistance,
    /// Set the word-distance budget for preceding contexts.
    SetForwardWordDistance(usize),
    /// Report the forward word distance.
    GetForwardWordDistance,
    /// Set the word-distance budget for following contexts.
    SetBackwardWordDistance(usize),
    /// Report the backward word distance.
    GetBackwardWordDistance,
    /// Report how two literal words relate through the category graph.
    FindRelation(String, String),
}

/// True when `s` consists of one or more decimal digits.
pub open spec fn is_digits(s: Seq<char>) -> bool {
    s.len() > 0 && forall|i: int| 0 <= i < s.len() ==> '0' <= #[trigger] s[i] <= '9'
}

/// The number the digit string `s` denotes.
pub open spec fn digits_value(s: Seq<char>) -> int
    decreases s.len(),
{
    if s.len() == 0 {
        0
    } else {
        digits_value(s.drop_last()) * 10 + (s.last() as int - '0' as int)
    }
}

/// The parse `r` is the decision the parameter list `ps` calls for.
pub open spec fn spec_parse_ok(ps: Seq<Seq<char>>, r: Decision) -> bool {
    if ps.len() == 0 {
        r is Help
    } else if ps[0] == "help"@ {
        r is Help
    } else if ps[0] == "quit"@ {
        if ps.len() == 1 {
            r is Quit
        } else {
            r is Help
        }
    } else if ps[0] == "import"@ {
        if ps.len() == 3 && ps[1] == "lines"@ {
            r matches Decision::ImportLines(s) && s@ == ps[2]
        } else {
            r is Help
        }
    } else if ps[0] == "list"@ {
        if ps.len() == 2 && ps[1] == "categories"@ {
            r is ShowCategories
        } else {
            r is Help
        }
    } else if ps[0] == "respond"@ {
        if ps.len() == 1 {
            r is Respond
        } else {
            r is Help
        }
    } else if ps[0] == "tell"@ {
        if ps.len() == 2 {
            r matches Decision::Tell(s) && s@ == ps[1]
        } else {
            r is Help
        }
    } else if ps[0] == "connect"@ {
        if ps.len() == 2 && ps[1] == "server"@ {
            r is ConnectServer
        } else if ps.len() == 3 && ps[1] == "irc"@ {
            r matches Decision::ConnectIrc(s) && s@ == ps[2]
        } else if ps.len() == 3 && ps[1] == "discord"@ {
            r matches Decision::ConnectDiscord(s) && s@ == ps[2]
        } else {
            r is Help
        }
    } else if ps[0] == "set"@ {
        if ps.len() == 4 && ps[1] == "cc_ratio"@ && is_digits(ps[2]) && is_digits(ps[3])
            && digits_value(ps[2]) <= u64::MAX && 1 <= digits_value(ps[3]) <= u64::MAX {
            r matches Decision::SetCocategoryRatio(rt) && rt.num == digits_value(ps[2]) && rt.den
                == digits_value(ps[3])
        } else if ps.len() == 3 && ps[1] == "cc_travel"@ && is_digits(ps[2]) && digits_value(ps[2])
            <= u32::MAX {
            r matches Decision::SetTravelDistance(v) && v == digits_value(ps[2])
        } else if ps.len() == 3 && ps[1] == "cc_magnitude"@ && is_digits(ps[2]) && digits_value(
            ps[2],
        ) <= u32::MAX {
            r matches Decision::SetCocategorizeMagnitude(v) && v == digits_value(ps[2])
        } else if ps.len() == 3 && ps[1] == "fe_dist"@ && is_digits(ps[2]) && digits_value(ps[2])
            <= u32::MAX {
            r matches Decision::SetForwardEdgeDistance(v) && v == digits_value(ps[2])
        } else if ps.len() == 3 && ps[1] == "be_dist"@ && is_digits(ps[2]) && digits_value(ps[2])
            <= u32::MAX {
            r matches Decision::SetBackwardEdgeDistance(v) && v == digits_value(ps[2])
        } else if ps.len() == 3 && ps[1] == "fw_dist"@ && is_digits(ps[2]) && digits_value(ps[2])
            <= u32::MAX {
            r matches Decision::SetForwardWordDistance(v) && v == digits_value(ps[2])
        } else if ps.len() == 3 && ps[1] == "bw_dist"@ && is_digits(ps[2]) && digits_value(ps[2])
            <= u32::MAX {
            r matches Decision::SetBackwardWordDistance(v) && v == digits_value(ps[2])
        } else {
            r is Help
        }
    } else if ps[0] == "get"@ {
        if ps.len() == 2 && ps[1] == "cc_ratio"@ {
            r is GetCocategoryRatio
        } else if ps.len() == 2 && ps[1] == "cc_travel"@ {
            r is GetTravelDistance
        } else if ps.len() == 2 && ps[1] == "cc_magnitude"@ {
            r is GetCocategorizeMagnitude
        } else if ps.len() == 2 && ps[1] == "fe_dist"@ {
            r is GetForwardEdgeDistance
        } else if ps.len() == 2 && ps[1] == "be_dist"@ {
            r is GetBackwardEdgeDistance
        } else if ps.len() == 2 && ps[1] == "fw_dist"@ {
            r is GetForwardWordDistance
        } else if ps.len() == 2 && ps[1] == "bw_dist"@ {
            r is GetBackwardWordDistance
        } else {
            r is Help
        }
    } else if ps[0] == "relate"@ {
        if ps.len() == 3 {
            r matches Decision::FindRelation(w0, w1) && w0@ == ps[1] && w1@ == ps[2]
        } else {
            r is Help
        }
    } else {
        r is Help
    }
}

/// Whether two string slices hold the same characters.
pub fn str_eq(a: &str, b: &str) -> (r: bool)
    ensures
        r == (a@ == b@),
{
    let na = a.unicode_len();
    let nb = b.unicode_len();
    if na != nb {
        proof {
            assert(a@ != b@);
        }
        return false;
    }
    let mut i: usize = 0;
    while i < na
        invariant
            na == a@.len(),
            na == b@.len(),
            i <= na,
            forall|t: int| 0 <= t < i ==> a@[t] == b@[t],
        decreases na - i,
    {
        if a.get_char(i) != b.get_char(i) {
            return false;
        }
        i += 1;
    }
    proof {
        assert(a@ =~= b@);
    }
    true
}

/// The numeric value of one decimal digit, if `c` is one.
fn digit_of(c: char) -> (r: Option<u64>)
    ensures
        match r {
            Some(v) => '0' <= c <= '9' && v == c as int - '0' as int,
            None => !('0' <= c <= '9'),
        },
{
    match c {
        '0' => Some(0),
        '1' => Some(1),
        '2' => Some(2),
        '3' => Some(3),
        '4' => Some(4),
        '5' => Some(5),
        '6' => Some(6),
        '7' => Some(7),
        '8' => Some(8),
        '9' => Some(9),
        _ => None,
    }
}

/// Parse a digit string into a number; `None` when `s` is not made of
/// digits or its value does not fit.
pub fn parse_u64(s: &str) -> (r: Option<u64>)
    ensures
        match r {
            Some(v) => is_digits(s@) && v == digits_value(s@),
            None => !is_digits(s@) || digits_value(s@) > u64::MAX,
        },
{
    let n = s.unicode_len();
    if n == 0 {
        return None;
    }
    let mut v: u64 = 0;
    let mut i: usize = 0;
    while i < n
        invariant
            n == s@.len(),
            i <= n,
            forall|t: int| 0 <= t < i ==> '0' <= #[trigger] s@[t] <= '9',
            v == digits_value(s@.take(i as int)),
        decreases n - i,
    {
        let c = s.get_char(i);
        match digit_of(c) {
            Some(d) => {
                proof {
                    assert(s@.take((i + 1) as int).drop_last() =~= s@.take(i as int));
                    assert(s@.take((i + 1) as int).last() == s@[i as int]);
                }
                if v > (u64::MAX - d) / 10 {
                    proof {
                        let pre = s@.take((i + 1) as int);
                        assert(digits_value(pre) == v * 10 + d);
                        assert(v * 10 + d > u64::MAX) by (nonlinear_arith)
                            requires
                                v > (u64::MAX - d) / 10,
                                0 <= d <= 9,
                                v >= 0,
                        ;
                        if is_digits(s@) {
                            lemma_digits_value_monotone(s@, (i + 1) as int);
                        }
                    }
                    return None;
                }
                v = v * 10 + d;
            },
            None => {
                return None;
            },
        }
        i += 1;
    }
    proof {
        assert(s@.take(n as int) =~= s@);
    }
    Some(v)
}

/// A digit string's value only grows as more digits follow.
proof fn lemma_digits_value_monotone(s: Seq<char>, i: int)
    requires
        0 <= i <= s.len(),
        forall|t: int| 0 <= t < s.len() ==> '0' <= #[trigger] s[t] <= '9',
    ensures
        digits_value(s) >= digits_value(s.take(i)),
        digits_value(s) >= 0,
    decreases s.len() - i,
{
    if i == s.len() {
        assert(s.take(i) =~= s);
        lemma_digits_value_nonneg(s);
    } else {
        lemma_digits_value_monotone(s, i + 1);
        lemma_digits_value_nonneg(s.take(i));
        assert(s.take(i + 1).drop_last() =~= s.take(i));
        assert(s.take(i + 1).last() == s[i]);
        assert(digits_value(s.take(i + 1)) == digits_value(s.take(i)) * 10 + (s[i] as int
            - '0' as int));
        assert(digits_value(s.take(i)) * 10 >= digits_value(s.take(i))) by (nonlinear_arith)
            requires
                digits_value(s.take(i)) >= 0,
        ;
    }
}

/// A digit string's value is never negative.
proof fn lemma_digits_value_nonneg(s: Seq<char>)
    requires
        forall|t: int| 0 <= t < s.len() ==> '0' <= #[trigger] s[t] <= '9',
    ensures
        digits_value(s) >= 0,
    decreases s.len(),
{
    if s.len() > 0 {
        lemma_digits_value_nonneg(s.drop_last());
        assert(digits_value(s.drop_last()) * 10 >= 0) by (nonlinear_arith)
            requires
                digits_value(s.drop_last()) >= 0,
        ;
    }
}

/// Parse the parameter list into the decision it calls for.
#[verifier::rlimit(50)]
pub fn parse_command(params: &Vec<String>) -> (r: Decision)
    ensures
        spec_parse_ok(params.deep_view(), r),
{
    let ghost ps = params.deep_view();
    proof {
        assert(ps.len() == params@.len());
        assert forall|t: int| 0 <= t < params@.len() implies #[trigger] params@[t]@ == ps[t] by {}
    }
    if params.len() == 0 {
        return Decision::Help;
    }
    let head = params[0].as_str();
    if str_eq(head, "help") {
        Decision::Help
    } else if str_eq(head, "quit") {
        if params.len() == 1 {
            Decision::Quit
        } else {
            Decision::Help
        }
    } else if str_eq(head, "import") {
        if params.len() == 3 && str_eq(params[1].as_str(), "lines") {
            Decision::ImportLines(params[2].clone())
        } else {
            Decision::Help
        }
    } else if str_eq(head, "list") {
        if params.len() == 2 && str_eq(params[1].as_str(), "categories") {
            Decision::ShowCategories
        } else {
            Decision::Help
        }
    } else if str_eq(head, "respond") {
        if params.len() == 1 {
            Decision::Respond
        } else {
            Decision::Help
        }
    } else if str_eq(head, "tell") {
        if params.len() == 2 {
            Decision::Tell(params[1].clone())
        } else {
            Decision::Help
        }
    } else if str_eq(head, "connect") {
        if params.len() == 2 && str_eq(params[1].as_str(), "server") {
            Decision::ConnectServer
        } else if params.len() == 3 && str_eq(params[1].as_str(), "irc") {
            Decision::ConnectIrc(params[2].clone())
        } else if params.len() == 3 && str_eq(params[1].as_str(), "discord") {
            Decision::ConnectDiscord(params[2].clone())
        } else {
            Decision::Help
        }
    } else if str_eq(head, "set") {
        if params.len() == 4 && str_eq(params[1].as_str(), "cc_ratio") {
            match (parse_u64(params[2].as_str()), parse_u64(params[3].as_str())) {
                (Some(num), Some(den)) => {
                    if den >= 1 {
                        Decision::SetCocategoryRatio(Ratio { num, den })
                    } else {
                        Decision::Help
                    }
                },
                _ => Decision::Help,
            }
        } else if params.len() == 3 && str_eq(params[1].as_str(), "cc_travel") {
            match parse_u64(params[2].as_str()) {
                Some(v) => {
                    if v <= u32::MAX as u64 {
                        Decision::SetTravelDistance(v as u32)
                    } else {
                        Decision::Help
                    }
                },
                None => Decision::Help,
            }
        } else if params.len() == 3 && str_eq(params[1].as_str(), "cc_magnitude") {
            match parse_u64(params[2].as_str()) {
                Some(v) => {
                    if v <= u32::MAX as u64 {
                        Decision::SetCocategorizeMagnitude(v as u32)
                    } else {
                        Decision::Help
                    }
                },
                None => Decision::Help,
            }
        } else if params.len() == 3 && str_eq(params[1].as_str(), "fe_dist") {
            match parse_u64(params[2].as_str()) {
                Some(v) => {
                    if v <= u32::MAX as u64 {
                        Decision::SetForwardEdgeDistance(v as usize)
                    } else {
                        Decision::Help
                    }
                },
                None => Decision::Help,
            }
        } else if params.len() == 3 && str_eq(params[1].as_str(), "be_dist") {
            match parse_u64(params[2].as_str()) {
                Some(v) => {
                    if v <= u32::MAX as u64 {
                        Decision::SetBackwardEdgeDistance(v as usize)
                    } else {
                        Decision::Help
                    }
                },
                None => Decision::Help,
            }
        } else if params.len() == 3 && str_eq(params[1].as_str(), "fw_dist") {
            match parse_u64(params[2].as_str()) {
                Some(v) => {
                    if v <= u32::MAX as u64 {
                        Decision::SetForwardWordDistance(v as usize)
                    } else {
                        Decision::Help
                    }
                },
                None => Decision::Help,
            }
        } else if params.len() == 3 && str_eq(params[1].as_str(), "bw_dist") {
            match parse_u64(params[2].as_str()) {
                Some(v) => {
                    if v <= u32::MAX as u64 {
                        Decision::SetBackwardWordDistance(v as usize)
                    } else {
                        Decision::Help
                    }
                },
                None => Decision::Help,
            }
        } else {
            Decision::Help
        }
    } else if str_eq(head, "get") {
        if params.len() == 2 && str_eq(params[1].as_str(), "cc_ratio") {
            Decision::GetCocategoryRatio
        } else if params.len() == 2 && str_eq(params[1].as_str(), "cc_travel") {
            Decision::GetTravelDistance
        } else if params.len() == 2 && str_eq(params[1].as_str(), "cc_magnitude") {
            Decision::GetCocategorizeMagnitude
        } else if params.len() == 2 && str_eq(params[1].as_str(), "fe_dist") {
            Decision::GetForwardEdgeDistance
        } else if params.len() == 2 && str_eq(params[1].as_str(), "be_dist") {
            Decision::GetBackwardEdgeDistance
        } else if params.len() == 2 && str_eq(params[1].as_str(), "fw_dist") {
            Decision::GetForwardWordDistance
        } else if params.len() == 2 && str_eq(params[1].as_str(), "bw_dist") {
            Decision::GetBackwardWordDistance
        } else {
            Decision::Help
        }
    } else if str_eq(head, "relate") {
        if params.len() == 3 {
            Decision::FindRelation(params[1].clone(), params[2].clone())
        } else {
            Decision::Help
        }
    } else {
        Decision::Help
    }
}


/// The parameters of a raw command line from position `i` onward: runs of
/// non-space characters, except that text between paired backticks is kept
/// as one parameter even if it contains spaces; empty parameters are
/// dropped and the backticks themselves never appear.
pub open spec fn params_from(s: Seq<char>, i: int, quoted: bool) -> Seq<Seq<char>>
    decreases s.len() - i,
{
    if i < 0 || i >= s.len() {
        Seq::empty()
    } else if s[i] == '`' {
        params_from(s, i + 1, !quoted)
    } else if quoted {
        let rest = params_from(s, i + 1, true);
        if i + 1 < s.len() && s[i + 1] != '`' {
            seq![seq![s[i]] + rest[0]] + rest.drop_first()
        } else {
            seq![seq![s[i]]] + rest
        }
    } else if s[i] == ' ' {
        params_from(s, i + 1, false)
    } else {
        let rest = params_from(s, i + 1, false);
        if i + 1 < s.len() && s[i + 1] != ' ' && s[i + 1] != '`' {
            seq![seq![s[i]] + rest[0]] + rest.drop_first()
        } else {
            seq![seq![s[i]]] + rest
        }
    }
}

/// The parameters of the whole command line `s`.
pub open spec fn params_of(s: Seq<char>) -> Seq<Seq<char>> {
    params_from(s, 0, false)
}

/// A maximal backtick-free run inside a quotation is one parameter.
proof fn lemma_quoted_run(s: Seq<char>, start: int, end: int)
    requires
        0 <= start < end <= s.len(),
        forall|j: int| start <= j < end ==> s[j] != '`',
        end == s.len() || s[end as int] == '`',
    ensures
        params_from(s, start, true) == seq![s.subrange(start, end)] + params_from(s, end, true),
    decreases end - start,
{
    if start + 1 == end {
        assert(s.subrange(start, end) =~= seq![s[start]]);
        assert(params_from(s, start, true) =~= seq![s.subrange(start, end)] + params_from(
            s,
            end,
            true,
        ));
    } else {
        lemma_quoted_run(s, start + 1, end);
        let rest = params_from(s, start + 1, true);
        assert(s[start + 1] != '`');
        assert(rest[0] == s.subrange(start + 1, end));
        assert(seq![s[start]] + rest[0] =~= s.subrange(start, end));
        assert(rest.drop_first() =~= params_from(s, end, true));
        assert(params_from(s, start, true) =~= seq![s.subrange(start, end)] + params_from(
            s,
            end,
            true,
        ));
    }
}

/// A maximal unquoted run free of spaces and backticks is one parameter.
proof fn lemma_plain_run(s: Seq<char>, start: int, end: int)
    requires
        0 <= start < end <= s.len(),
        forall|j: int| start <= j < end ==> s[j] != ' ' && s[j] != '`',
        end == s.len() || s[end as int] == ' ' || s[end as int] == '`',
    ensures
        params_from(s, start, false) == seq![s.subrange(start, end)] + params_from(s, end, false),
    decreases end - start,
{
    if start + 1 == end {
        assert(s.subrange(start, end) =~= seq![s[start]]);
        assert(params_from(s, start, false) =~= seq![s.subrange(start, end)] + params_from(
            s,
            end,
            false,
        ));
    } else {
        lemma_plain_run(s, start + 1, end);
        let rest = params_from(s, start + 1, false);
        assert(s[start + 1] != ' ' && s[start + 1] != '`');
        assert(rest[0] == s.subrange(start + 1, end));
        assert(seq![s[start]] + rest[0] =~= s.subrange(start, end));
        assert(rest.drop_first() =~= params_from(s, end, false));
        assert(params_from(s, start, false) =~= seq![s.subrange(start, end)] + params_from(
            s,
            end,
            false,
        ));
    }
}

/// Split a raw command line into its parameters, honoring the backtick
/// quoting convention.
pub fn command_params(line: &str) -> (r: Vec<String>)
    ensures
        r.deep_view() == params_of(line@),
        r@.len() == params_of(line@).len(),
        forall|j: int| 0 <= j < r@.len() ==> #[trigger] r@[j]@ == params_of(line@)[j],
{
    let n = line.unicode_len();
    let mut r: Vec<String> = Vec::new();
    let mut quoted = false;
    let mut i: usize = 0;
    while i < n
        invariant
            n == line@.len(),
            i <= n,
            params_of(line@) == r.deep_view() + params_from(line@, i as int, quoted),
            forall|j: int| 0 <= j < r@.len() ==> #[trigger] r@[j]@ == r.deep_view()[j],
            r@.len() == r.deep_view().len(),
        decreases n - i,
    {
        let c = line.get_char(i);
        if c == '`' {
            quoted = !quoted;
            i += 1;
        } else if !quoted && c == ' ' {
            i += 1;
        } else {
            let start = i;
            i += 1;
            if quoted {
                while i < n && line.get_char(i) != '`'
                    invariant
                        n == line@.len(),
                        start < i <= n,
                        forall|j: int| start <= j < i ==> line@[j] != '`',
                    decreases n - i,
                {
                    i += 1;
                }
                proof {
                    lemma_quoted_run(line@, start as int, i as int);
                }
            } else {
                while i < n && line.get_char(i) != ' ' && line.get_char(i) != '`'
                    invariant
                        n == line@.len(),
                        start < i <= n,
                        forall|j: int| start <= j < i ==> line@[j] != ' ' && line@[j] != '`',
                    decreases n - i,
                {
                    i += 1;
                }
                proof {
                    lemma_plain_run(line@, start as int, i as int);
                }
            }
            let tok = line.substring_char(start, i).to_owned();
            proof {
                assert(tok@ == line@.subrange(start as int, i as int));
            }
            let ghost dv = r.deep_view();
            r.push(tok);
            proof {
                assert(r.deep_view() =~= dv.push(tok@));
                assert(params_of(line@) =~= r.deep_view() + params_from(
                    line@,
                    i as int,
                    quoted,
                ));
            }
        }
    }
    proof {
        assert(params_from(line@, n as int, quoted) =~= Seq::<Seq<char>>::empty());
        assert(params_of(line@) =~= r.deep_view());
    }
    r
}


} // verus!
