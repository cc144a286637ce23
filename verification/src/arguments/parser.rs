//! The command-line argument grammar: positional search path and query,
//! context-count options with a following value, extension list options, and
//! bundled single-letter flags.

use vstd::prelude::*;

verus! {

/// The parsed command line.
pub struct ParsedArgs {
    pub path: Option<String>,
    pub query: Option<String>,
    pub recursive: bool,
    pub case_sensitive: bool,
    pub context_before: u8,
    pub context_after: u8,
    pub include_file_types: Option<Vec<String>>,
    pub exclude_file_types: Option<Vec<String>>,
}

/// The character sequences of a sequence of strings.
pub open spec fn args_chars(args: Seq<String>) -> Seq<Seq<char>> {
    args.map_values(|x: String| x@)
}

/// The view of an optional string.
pub open spec fn opt_chars(o: Option<String>) -> Option<Seq<char>> {
    match o {
        Some(s) => Some(s@),
        None => None,
    }
}

/// The view of an optional list of strings.
pub open spec fn opt_lists(o: Option<Vec<String>>) -> Option<Seq<Seq<char>>> {
    match o {
        Some(v) => Some(args_chars(v@)),
        None => None,
    }
}

/// `c` is a decimal digit.
pub open spec fn is_digit(c: char) -> bool {
    48 <= c as u32 <= 57
}

/// The value of a decimal digit.
pub open spec fn digit_val(c: char) -> int {
    c as u32 - 48
}

/// Every character of `s` is a decimal digit.
pub open spec fn all_digits(s: Seq<char>) -> bool {
    forall|i: int| 0 <= i < s.len() ==> is_digit(#[trigger] s[i])
}

/// The numeric value of a sequence of decimal digits.
pub open spec fn digits_val(s: Seq<char>) -> int
    decreases s.len(),
{
    if s.len() == 0 {
        0
    } else {
        digits_val(s.drop_last()) * 10 + digit_val(s.last())
    }
}

/// The digits of a byte literal: everything after an optional leading plus
/// sign.
pub open spec fn u8_digits(s: Seq<char>) -> Seq<char> {
    if s.len() > 0 && s[0] == '+' {
        s.drop_first()
    } else {
        s
    }
}

/// What `str::parse::<u8>` yields on `s`: an optional leading plus sign,
/// then one or more decimal digits whose value fits in a byte; anything else
/// is rejected.
pub open spec fn parse_u8_spec(s: Seq<char>) -> Option<u8> {
    let t = u8_digits(s);
    if t.len() > 0 && all_digits(t) && digits_val(t) <= 255 {
        Some(digits_val(t) as u8)
    } else {
        None
    }
}

proof fn lemma_digits_val_nonneg(s: Seq<char>)
    requires
        all_digits(s),
    ensures
        digits_val(s) >= 0,
    decreases s.len(),
{
    if s.len() > 0 {
        assert(forall|i: int| 0 <= i < s.drop_last().len() ==> s.drop_last()[i] == s[i]);
        lemma_digits_val_nonneg(s.drop_last());
    }
}

proof fn lemma_digits_val_prefix(s: Seq<char>, k: int)
    requires
        all_digits(s),
        0 <= k <= s.len(),
    ensures
        digits_val(s.take(k)) <= digits_val(s),
    decreases s.len() - k,
{
    if k < s.len() {
        assert(forall|i: int| 0 <= i < k + 1 ==> s.take(k + 1)[i] == s[i]);
        assert(s.take(k + 1).drop_last() =~= s.take(k));
        assert(s.take(k + 1).last() == s[k]);
        assert(all_digits(s.take(k)));
        lemma_digits_val_nonneg(s.take(k));
        assert(digits_val(s.take(k + 1)) == digits_val(s.take(k)) * 10 + digit_val(s[k]));
        assert(digits_val(s.take(k)) <= digits_val(s.take(k + 1)));
        lemma_digits_val_prefix(s, k + 1);
        assert(s.take(s.len() as int) =~= s);
    } else {
        assert(s.take(k) =~= s);
    }
}

/// Parses a byte from its decimal form, exactly as `str::parse::<u8>` does.
fn parse_u8(s: &String) -> (r: Option<u8>)
    ensures
        r == parse_u8_spec(s@),
{
    let n = s.as_str().unicode_len();
    let has_sign = n > 0 && s.as_str().get_char(0) == '+';
    let start: usize = if has_sign {
        1
    } else {
        0
    };
    let ghost t = u8_digits(s@);
    proof {
        if has_sign {
            assert(forall|i: int| 0 <= i < t.len() ==> t[i] == s@[i + 1]);
        }
    }
    if n == start {
        return None;
    }
    let mut acc: u32 = 0;
    let mut i: usize = start;
    while i < n
        invariant
            start <= i <= n,
            n == s@.len(),
            start == 1 ==> s@.len() > 0 && s@[0] == '+',
            start == 0 ==> !(s@.len() > 0 && s@[0] == '+'),
            t == u8_digits(s@),
            t.len() == n - start,
            forall|j: int| 0 <= j < t.len() ==> t[j] == s@[j + start],
            all_digits(t.take(i - start)),
            acc == digits_val(t.take(i - start)),
            acc <= 255,
        decreases n - i,
    {
        let c = s.as_str().get_char(i);
        let cv = c as u32;
        proof {
            assert(t[i - start] == s@[i as int]);
            assert(t.take(i + 1 - start).drop_last() =~= t.take(i - start));
            assert(t.take(i + 1 - start).last() == t[i - start]);
        }
        if cv < 48 || cv > 57 {
            proof {
                assert(!is_digit(t[i - start]));
                assert(!all_digits(t));
            }
            return None;
        }
        let d = cv - 48;
        let next = acc * 10 + d;
        if next > 255 {
            proof {
                assert(all_digits(t.take(i + 1 - start)));
                assert(digits_val(t.take(i + 1 - start)) == next);
                if all_digits(t) {
                    lemma_digits_val_prefix(t, i + 1 - start);
                    assert(digits_val(t) > 255);
                }
            }
            return None;
        }
        acc = next;
        proof {
            assert(all_digits(t.take(i + 1 - start)));
        }
        i += 1;
    }
    proof {
        assert(t.take(n - start) =~= t);
    }
    Some(acc as u8)
}

/// The parser's running state: the fields gathered so far, plus which
/// extension list a bare argument currently feeds.
pub struct ParseState {
    pub path: Option<Seq<char>>,
    pub query: Option<Seq<char>>,
    pub recursive: bool,
    pub case_sensitive: bool,
    pub context_before: u8,
    pub context_after: u8,
    pub include_types: Option<Seq<Seq<char>>>,
    pub exclude_types: Option<Seq<Seq<char>>>,
    pub key: char,
}

/// The state before any argument is seen.
pub open spec fn init_parse_state() -> ParseState {
    ParseState {
        path: None,
        query: None,
        recursive: false,
        case_sensitive: true,
        context_before: 0,
        context_after: 0,
        include_types: None,
        exclude_types: None,
        key: '!',
    }
}

/// The option sets the after-context count.
pub open spec fn is_after_flag(a: Seq<char>) -> bool {
    a == "-A"@ || a == "--after"@
}

/// The option sets the before-context count.
pub open spec fn is_before_flag(a: Seq<char>) -> bool {
    a == "-B"@ || a == "--before"@
}

/// The option sets both context counts.
pub open spec fn is_both_flag(a: Seq<char>) -> bool {
    a == "-C"@ || a == "--context"@
}

/// The option takes a following numeric value.
pub open spec fn is_context_flag(a: Seq<char>) -> bool {
    is_after_flag(a) || is_before_flag(a) || is_both_flag(a)
}

/// The option starts the excluded-extension list.
pub open spec fn is_exclude_flag(a: Seq<char>) -> bool {
    a == "-E"@ || a == "--exclude-file-types"@
}

/// The option starts the included-extension list.
pub open spec fn is_include_flag(a: Seq<char>) -> bool {
    a == "-I"@ || a == "--include-file-types"@
}

/// One step of argument parsing: `a` is the current argument and `next` the
/// one after it, when there is one. A context option reads its value from
/// `next` and keeps the old count when that value does not parse; an
/// extension option opens its list and routes later bare arguments to it;
/// any other dash argument is scanned for the bundled letters `i` and `r`;
/// and a bare argument fills the path, then the query, then the open list.
pub open spec fn parse_arg_step(st: ParseState, a: Seq<char>, next: Option<Seq<char>>) -> ParseState {
    if a.len() > 0 && a[0] == '-' {
        if is_context_flag(a) {
            match next {
                Some(v) => match parse_u8_spec(v) {
                    Some(d) => if is_after_flag(a) {
                        ParseState { context_after: d, ..st }
                    } else if is_before_flag(a) {
                        ParseState { context_before: d, ..st }
                    } else {
                        ParseState { context_before: d, context_after: d, ..st }
                    },
                    None => st,
                },
                None => st,
            }
        } else if is_exclude_flag(a) {
            ParseState {
                exclude_types: Some(
                    match st.exclude_types {
                        Some(e) => e,
                        None => Seq::<Seq<char>>::empty(),
                    },
                ),
                key: 'E',
                ..st
            }
        } else if is_include_flag(a) {
            ParseState {
                include_types: Some(
                    match st.include_types {
                        Some(e) => e,
                        None => Seq::<Seq<char>>::empty(),
                    },
                ),
                key: 'I',
                ..st
            }
        } else {
            ParseState {
                case_sensitive: st.case_sensitive && !a.contains('i'),
                recursive: st.recursive || a.contains('r'),
                ..st
            }
        }
    } else {
        if st.path is None {
            ParseState { path: Some(a), ..st }
        } else if st.query is None {
            ParseState { query: Some(a), ..st }
        } else if st.key == 'I' {
            match st.include_types {
                Some(v) => ParseState { include_types: Some(v.push(a)), ..st },
                None => st,
            }
        } else if st.key == 'E' {
            match st.exclude_types {
                Some(v) => ParseState { exclude_types: Some(v.push(a)), ..st },
                None => st,
            }
        } else {
            st
        }
    }
}

/// The parser's state after consuming the arguments from index `i` on.
pub open spec fn parse_args_from(args: Seq<Seq<char>>, i: int, st: ParseState) -> ParseState
    decreases args.len() - i,
{
    if i < 0 || i >= args.len() {
        st
    } else {
        let next = if i + 1 < args.len() {
            Some(args[i + 1])
        } else {
            None
        };
        parse_args_from(args, i + 1, parse_arg_step(st, args[i], next))
    }
}

/// The parser's final state on an argument list.
pub open spec fn parse_args_spec(args: Seq<Seq<char>>) -> ParseState {
    parse_args_from(args, 0, init_parse_state())
}

/// The parsed fields agree with the parser's final state.
pub open spec fn parsed_matches(p: ParsedArgs, st: ParseState) -> bool {
    &&& opt_chars(p.path) == st.path
    &&& opt_chars(p.query) == st.query
    &&& p.recursive == st.recursive
    &&& p.case_sensitive == st.case_sensitive
    &&& p.context_before == st.context_before
    &&& p.context_after == st.context_after
    &&& opt_lists(p.include_file_types) == st.include_types
    &&& opt_lists(p.exclude_file_types) == st.exclude_types
}

fn string_is(a: &String, lit: &str) -> (r: bool)
    ensures
        r == (a@ == lit@),
{
    *a == lit.to_owned()
}

fn char_in(s: &String, c: char) -> (r: bool)
    ensures
        r == s@.contains(c),
{
    let n = s.as_str().unicode_len();
    let mut i: usize = 0;
    while i < n
        invariant
            i <= n,
            n == s@.len(),
            forall|j: int| 0 <= j < i ==> s@[j] != c,
        decreases n - i,
    {
        if s.as_str().get_char(i) == c {
            assert(s@.contains(c));
            return true;
        }
        i += 1;
    }
    assert(!s@.contains(c)) by {
        if s@.contains(c) {
            let w = choose|w: int| 0 <= w < s@.len() && s@[w] == c;
        }
    }
    false
}

impl ParsedArgs {
    /// Parses the raw arguments. Fails exactly when fewer than two arguments
    /// are given; otherwise every field equals what the argument grammar
    /// assigns. A context option must not stand last, since it reads the
    /// following argument.
    pub fn new(args: &Vec<String>) -> (r: Result<ParsedArgs, &'static str>)
        requires
            forall|i: int|
                0 <= i < args@.len() && is_context_flag((#[trigger] args@[i])@) ==> i + 1
                    < args@.len(),
        ensures
            args@.len() >= 2 <==> r is Ok,
            r matches Ok(p) ==> parsed_matches(p, parse_args_spec(args_chars(args@))),
            r matches Err(m) ==> m@ == "Must pass a search path and phrase, in that order"@,
    {
        if args.len() < 2 {
            return Err("Must pass a search path and phrase, in that order");
        }
        let ghost ac = args_chars(args@);
        let mut path: Option<String> = None;
        let mut query: Option<String> = None;
        let mut recursive: bool = false;
        let mut case_sensitive: bool = true;
        let mut context_before: u8 = 0;
        let mut context_after: u8 = 0;
        let mut include_types: Option<Vec<String>> = None;
        let mut exclude_types: Option<Vec<String>> = None;
        let mut key: char = '!';
        let mut i: usize = 0;
        while i < args.len()
            invariant
                i <= args@.len(),
                ac == args_chars(args@),
                forall|k: int|
                    0 <= k < args@.len() && is_context_flag((#[trigger] args@[k])@) ==> k + 1
                        < args@.len(),
                parse_args_from(
                    ac,
                    i as int,
                    ParseState {
                        path: opt_chars(path),
                        query: opt_chars(query),
                        recursive,
                        case_sensitive,
                        context_before,
                        context_after,
                        include_types: opt_lists(include_types),
                        exclude_types: opt_lists(exclude_types),
                        key,
                    },
                ) == parse_args_spec(ac),
            decreases args@.len() - i,
        {
            let ghost st = ParseState {
                path: opt_chars(path),
                query: opt_chars(query),
                recursive,
                case_sensitive,
                context_before,
                context_after,
                include_types: opt_lists(include_types),
                exclude_types: opt_lists(exclude_types),
                key,
            };
            let argument = &args[i];
            proof {
                assert(ac[i as int] == args@[i as int]@);
            }
            let alen = argument.as_str().unicode_len();
            if alen > 0 && argument.as_str().get_char(0) == '-' {
                let context_kind: u8 = if string_is(argument, "-A") || string_is(
                    argument,
                    "--after",
                ) {
                    1
                } else if string_is(argument, "-B") || string_is(argument, "--before") {
                    2
                } else if string_is(argument, "-C") || string_is(argument, "--context") {
                    3
                } else {
                    0
                };
                if context_kind > 0 {
                    assert(is_context_flag(ac[i as int]));
                    assert(i + 1 < args@.len());
                    let value = parse_u8(&args[i + 1]);
                    proof {
                        assert(ac[i + 1] == args@[i + 1]@);
                    }
                    match value {
                        Some(d) => {
                            if context_kind == 1 {
                                context_after = d;
                            } else if context_kind == 2 {
                                context_before = d;
                            } else {
                                context_before = d;
                                context_after = d;
                            }
                        },
                        None => {},
                    }
                } else if string_is(argument, "-E") || string_is(argument, "--exclude-file-types") {
                    if exclude_types.is_none() {
                        exclude_types = Some(Vec::new());
                        proof {
                            assert(args_chars(Seq::<String>::empty()) =~= Seq::<
                                Seq<char>,
                            >::empty());
                        }
                    }
                    key = 'E';
                } else if string_is(argument, "-I") || string_is(argument, "--include-file-types") {
                    if include_types.is_none() {
                        include_types = Some(Vec::new());
                        proof {
                            assert(args_chars(Seq::<String>::empty()) =~= Seq::<
                                Seq<char>,
                            >::empty());
                        }
                    }
                    key = 'I';
                } else {
                    if char_in(argument, 'i') {
                        case_sensitive = false;
                    }
                    if char_in(argument, 'r') {
                        recursive = true;
                    }
                }
            } else {
                if path.is_none() {
                    path = Some(argument.clone());
                } else if query.is_none() {
                    query = Some(argument.clone());
                } else if key == 'I' {
                    match &mut include_types {
                        Some(v) => {
                            proof {
                                assert(args_chars(v@.push(args@[i as int])) =~= args_chars(
                                    v@,
                                ).push(ac[i as int]));
                            }
                            v.push(argument.clone());
                        },
                        None => {},
                    }
                } else if key == 'E' {
                    match &mut exclude_types {
                        Some(v) => {
                            proof {
                                assert(args_chars(v@.push(args@[i as int])) =~= args_chars(
                                    v@,
                                ).push(ac[i as int]));
                            }
                            v.push(argument.clone());
                        },
                        None => {},
                    }
                }
            }
            proof {
                let st1 = ParseState {
                    path: opt_chars(path),
                    query: opt_chars(query),
                    recursive,
                    case_sensitive,
                    context_before,
                    context_after,
                    include_types: opt_lists(include_types),
                    exclude_types: opt_lists(exclude_types),
                    key,
                };
                let next = if i + 1 < ac.len() {
                    Some(ac[i + 1])
                } else {
                    None
                };
                assert(st1 == parse_arg_step(st, ac[i as int], next));
            }
            i += 1;
        }
        let parsed = ParsedArgs {
            path,
            query,
            recursive,
            case_sensitive,
            context_before,
            context_after,
            include_file_types: include_types,
            exclude_file_types: exclude_types,
        };
        Ok(parsed)
    }
}

/// Parses the raw arguments; see `ParsedArgs::new`.
pub fn parse(args: &Vec<String>) -> (r: Result<ParsedArgs, &'static str>)
    requires
        forall|i: int|
            0 <= i < args@.len() && is_context_flag((#[trigger] args@[i])@) ==> i + 1
                < args@.len(),
    ensures
        args@.len() >= 2 <==> r is Ok,
        r matches Ok(p) ==> parsed_matches(p, parse_args_spec(args_chars(args@))),
        r matches Err(m) ==> m@ == "Must pass a search path and phrase, in that order"@,
{
    ParsedArgs::new(args)
}

} // verus!
