//! Option symbols of the exchange (`BTC-27DEC24-100000-C-USDT`) and what
//! they describe.
use chrono::Datelike;
use vstd::prelude::*;

verus! {

broadcast use vstd::string::group_string_axioms;

/// Put or call.
#[derive(Debug, Hash, Eq, PartialEq, Clone, Copy, Structural)]
pub enum OptionType {
    Put,
    Call,
}

/// A point in time in UTC, held as its calendar date and time of day.
#[derive(Debug, Hash, Eq, PartialEq, Clone, Copy, Structural)]
pub struct UtcDateTime {
    pub year: i32,
    pub month: u32,
    pub day: u32,
    pub hour: u32,
    pub minute: u32,
    pub second: u32,
}

/// What an option symbol says about the option.
#[derive(Debug, Hash, Eq, PartialEq, Clone)]
pub struct BybitInfo {
    pub base: String,
    pub expire: UtcDateTime,
    pub strike_price: String,
    pub opt_type: OptionType,
    pub quote: Option<String>,
}

/// A held option.
#[derive(Debug, Hash, Eq, PartialEq, Clone)]
pub struct BybitPosition {
    pub bybit_info: BybitInfo,
    /// true -> long, false -> short
    pub side: bool,
}

/// The layout of the expiry date inside a symbol: day, month abbreviation,
/// two-digit year (`27DEC24`).
pub const EXPIRY_FORMAT: &'static str = "%d%b%y";

/// The hour of the day, in UTC, at which options expire.
pub const EXPIRY_HOUR: u32 = 8;

/// The shape of an option symbol; its groups are, in order, the base coin,
/// the expiry, the strike price, the side and the optional quote coin.
pub const SYMBOL_PATTERN: &'static str = r"(?<base>\w+)-(?<expire>\d+\w+\d+)-(?<strike_price>\d+\.?\d*)-(?<side>C|P)(?:-(?<quote>USDT))?";

/// The date (year, month, day) that chrono reads from `s` with the
/// strftime-style format `fmt`, if it reads one.
pub uninterp spec fn chrono_parse_date(s: Seq<char>, fmt: Seq<char>) -> Option<(i32, u32, u32)>;

/// The capture groups, by number, of the first match of the regular
/// expression `pattern` in `haystack`, if `pattern` compiles and matches.
pub uninterp spec fn regex_capture_groups(pattern: Seq<char>, haystack: Seq<char>) -> Option<
    Seq<Option<Seq<char>>>,
>;

/// `part` occurs in `whole` as a contiguous piece.
pub open spec fn is_infix_of(part: Seq<char>, whole: Seq<char>) -> bool {
    exists|k: int|
        0 <= k && k + part.len() <= whole.len() && #[trigger] whole.subrange(k, k + part.len())
            == part
}

/// Reads a date from `s` with chrono's `NaiveDate::parse_from_str(s, fmt)`.
/// Trusted: the result is chrono's (named `chrono_parse_date`), and a date
/// that chrono gives has a month in 1..=12 and a day in 1..=31.
#[verifier::external_body]
fn parse_date(s: &str, fmt: &str) -> (r: Option<(i32, u32, u32)>)
    ensures
        r == chrono_parse_date(s@, fmt@),
        r matches Some((y, m, d)) ==> 1 <= m <= 12 && 1 <= d <= 31,
{
    match chrono::NaiveDate::parse_from_str(s, fmt) {
        Ok(d) => Some((d.year(), d.month(), d.day())),
        Err(_) => None,
    }
}

/// An ASCII word character: a letter, a digit or `_`.
pub open spec fn is_ascii_word(c: char) -> bool {
    ||| (48 <= c as u32 && c as u32 <= 57)
    ||| (65 <= c as u32 && c as u32 <= 90)
    ||| (97 <= c as u32 && c as u32 <= 122)
    ||| c == '_'
}

/// An ASCII digit.
pub open spec fn is_ascii_digit(c: char) -> bool {
    48 <= c as u32 && c as u32 <= 57
}

/// Every character of `s` is an ASCII digit.
pub open spec fn all_digits(s: Seq<char>) -> bool {
    forall|i: int| 0 <= i < s.len() ==> is_ascii_digit(#[trigger] s[i])
}

/// Every character of `s` is an ASCII word character.
pub open spec fn all_word(s: Seq<char>) -> bool {
    forall|i: int| 0 <= i < s.len() ==> is_ascii_word(#[trigger] s[i])
}

/// An expiry as a symbol writes it: ASCII word characters, at least three,
/// the first and the last a digit (`27DEC24`).
pub open spec fn is_expiry_text(d: Seq<char>) -> bool {
    &&& d.len() >= 3
    &&& all_word(d)
    &&& is_ascii_digit(d[0])
    &&& is_ascii_digit(d.last())
}

/// A strike price as a symbol writes it: ASCII digits, then optionally a
/// point and more digits (`100000`, `150.5`).
pub open spec fn is_strike_text(s: Seq<char>) -> bool {
    exists|p: int|
        1 <= p <= s.len() && all_digits(#[trigger] s.take(p)) && (p == s.len() || (s[p] == '.'
            && all_digits(s.skip(p + 1))))
}

/// The parts of a symbol in its plain ASCII form.
pub open spec fn plain_symbol_parts(b: Seq<char>, d: Seq<char>, s: Seq<char>, side: char) -> bool {
    &&& b.len() > 0
    &&& all_word(b)
    &&& is_expiry_text(d)
    &&& is_strike_text(s)
    &&& (side == 'C' || side == 'P')
}

/// The quote coin that a symbol may end with.
pub open spec fn usdt() -> Seq<char> {
    seq!['U', 'S', 'D', 'T']
}

/// The symbol `base-expiry-strike-side`, followed by `-USDT` when `quoted`.
pub open spec fn symbol_text(b: Seq<char>, d: Seq<char>, s: Seq<char>, side: char, quoted: bool) -> Seq<
    char,
> {
    b + seq!['-'] + d + seq!['-'] + s + seq!['-', side] + if quoted {
        seq!['-'] + usdt()
    } else {
        Seq::empty()
    }
}

/// The capture groups of `SYMBOL_PATTERN` on a plain symbol.
pub open spec fn plain_symbol_groups(b: Seq<char>, d: Seq<char>, s: Seq<char>, side: char, quoted: bool) -> Seq<
    Option<Seq<char>>,
> {
    seq![
        Some(symbol_text(b, d, s, side, quoted)),
        Some(b),
        Some(d),
        Some(s),
        Some(seq![side]),
        if quoted {
            Some(usdt())
        } else {
            None
        },
    ]
}

/// Compiles `pattern` with `regex::Regex::new` and returns the texts of the
/// capture groups of `Regex::captures(haystack)`, by group number.
/// Trusted: the result is the regex crate's (named `regex_capture_groups`),
/// and every captured text is a piece of `haystack`, as `Match::as_str`
/// documents. Also stated: what `SYMBOL_PATTERN` captures on a plain ASCII
/// symbol `base-expiry-strike-side[-USDT]`. A match starts at the first
/// character; `\w+` takes the base up to the first `-`, the expiry is the
/// next dash-free run (`\d+\w+\d+` backtracks inside it), the strike the
/// next, and the optional `-USDT` is taken when present (leftmost-first,
/// greedy semantics of the regex crate). On other haystacks the groups are
/// not stated.
#[verifier::external_body]
fn regex_captures(pattern: &str, haystack: &str) -> (groups: Option<Vec<Option<String>>>)
    ensures
        groups.deep_view() == regex_capture_groups(pattern@, haystack@),
        pattern@ == SYMBOL_PATTERN@ ==> forall|b: Seq<char>, d: Seq<char>, s: Seq<char>, side: char, q: bool|
            plain_symbol_parts(b, d, s, side) && haystack@ == #[trigger] symbol_text(b, d, s, side, q)
                ==> groups.deep_view() == Some(plain_symbol_groups(b, d, s, side, q)),
        groups matches Some(g) ==> forall|i: int|
            0 <= i < g.len() ==> ((#[trigger] g@[i]) matches Some(t) ==> is_infix_of(t@, haystack@)),
{
    match regex::Regex::new(pattern) {
        Ok(re) => match re.captures(haystack) {
            Some(caps) => Some(
                caps.iter().map(
                    |m| match m {
                        Some(m) => Some(m.as_str().to_string()),
                        None => None,
                    },
                ).collect(),
            ),
            None => None,
        },
        Err(_) => None,
    }
}

/// The moment at which an option with expiry date `date` expires.
pub open spec fn expiry_moment(date: (i32, u32, u32)) -> UtcDateTime {
    UtcDateTime { year: date.0, month: date.1, day: date.2, hour: EXPIRY_HOUR, minute: 0, second: 0 }
}

/// An option expires on the very date that chrono reads from its symbol,
/// whatever that date is, at 08:00:00 UTC.
pub proof fn lemma_expiry_keeps_date(date: (i32, u32, u32))
    ensures
        expiry_moment(date).year == date.0,
        expiry_moment(date).month == date.1,
        expiry_moment(date).day == date.2,
        expiry_moment(date).hour == 8,
        expiry_moment(date).minute == 0,
        expiry_moment(date).second == 0,
{
}

/// Two expiry moments are equal exactly when their dates are.
pub proof fn lemma_expiry_moment_injective(d1: (i32, u32, u32), d2: (i32, u32, u32))
    ensures
        (expiry_moment(d1) == expiry_moment(d2)) <==> (d1 == d2),
{
    lemma_expiry_keeps_date(d1);
    lemma_expiry_keeps_date(d2);
}

/// The option type that a side letter stands for.
pub open spec fn option_type_of(side: Seq<char>) -> OptionType {
    if side == seq!['C'] {
        OptionType::Call
    } else {
        OptionType::Put
    }
}

/// The capture groups of a symbol hold a base, an expiry date that chrono
/// reads, a strike price and a side `C` or `P`.
pub open spec fn groups_well_formed(g: Seq<Option<Seq<char>>>) -> bool {
    &&& g.len() > 5
    &&& g[1] is Some
    &&& g[2] is Some
    &&& g[3] is Some
    &&& (g[4] == Some(seq!['C']) || g[4] == Some(seq!['P']))
    &&& chrono_parse_date(g[2]->0, EXPIRY_FORMAT@) is Some
}

/// `info` is what the capture groups `g` of a symbol describe.
pub open spec fn info_of_groups(info: BybitInfo, g: Seq<Option<Seq<char>>>) -> bool {
    &&& info.base@ == g[1]->0
    &&& info.expire == expiry_moment(chrono_parse_date(g[2]->0, EXPIRY_FORMAT@)->0)
    &&& info.strike_price@ == g[3]->0
    &&& info.opt_type == option_type_of(g[4]->0)
    &&& info.quote.deep_view() == g[5]
}

/// The base, the strike price and the quote of `info` are pieces of `symbol`.
pub open spec fn fields_in_symbol(info: BybitInfo, symbol: Seq<char>) -> bool {
    &&& is_infix_of(info.base@, symbol)
    &&& is_infix_of(info.strike_price@, symbol)
    &&& (info.quote matches Some(q) ==> is_infix_of(q@, symbol))
}

/// What `extract_bybit_info` gives for `symbol`: nothing when the symbol
/// does not match `SYMBOL_PATTERN` or its groups are not well formed (for
/// instance an expiry that is no date), else the option they describe.
pub open spec fn extracted(symbol: Seq<char>, r: Option<BybitInfo>) -> bool {
    match regex_capture_groups(SYMBOL_PATTERN@, symbol) {
        None => r is None,
        Some(g) => if groups_well_formed(g) {
            r matches Some(info) && info_of_groups(info, g)
        } else {
            r is None
        },
    }
}

/// The expiry moment of a date written like `27DEC24`: 08:00:00 UTC of that day.
pub fn parse_expiration_date(date: &str) -> (expire: UtcDateTime)
    requires
        chrono_parse_date(date@, EXPIRY_FORMAT@) is Some,
    ensures
        expire == expiry_moment(chrono_parse_date(date@, EXPIRY_FORMAT@)->0),
        expire.year == chrono_parse_date(date@, EXPIRY_FORMAT@).unwrap().0,
        expire.month == chrono_parse_date(date@, EXPIRY_FORMAT@).unwrap().1,
        expire.day == chrono_parse_date(date@, EXPIRY_FORMAT@).unwrap().2,
        expire.hour == 8 && expire.minute == 0 && expire.second == 0,
        1 <= expire.month <= 12,
        1 <= expire.day <= 31,
{
    let (year, month, day) = parse_date(date, EXPIRY_FORMAT).unwrap();
    UtcDateTime { year, month, day, hour: EXPIRY_HOUR, minute: 0, second: 0 }
}

fn is_single_char(s: &str, c: char) -> (b: bool)
    ensures
        b == (s@ == seq![c]),
{
    if s.unicode_len() == 1 {
        let first = s.get_char(0);
        if first == c {
            assert(s@ =~= seq![c]);
            true
        } else {
            false
        }
    } else {
        false
    }
}

pub(crate) fn clone_optional(o: &Option<String>) -> (r: Option<String>)
    ensures
        r.deep_view() == o.deep_view(),
{
    match o {
        Some(s) => Some(s.clone()),
        None => None,
    }
}

/// Each group of the view is the view of the group.
proof fn lemma_group_views(groups: &Vec<Option<String>>)
    ensures
        forall|i: int|
            0 <= i < groups.len() ==> #[trigger] groups.deep_view()[i] == groups@[i].deep_view(),
{
}

/// Whether the capture groups of a symbol are well formed (see `groups_well_formed`).
pub fn groups_are_well_formed(groups: &Vec<Option<String>>) -> (ok: bool)
    ensures
        ok == groups_well_formed(groups.deep_view()),
{
    if groups.len() <= 5 {
        return false;
    }
    proof {
        lemma_group_views(groups);
    }
    if groups[1].is_none() || groups[3].is_none() {
        return false;
    }
    let side_ok = match &groups[4] {
        Some(side) => is_single_char(side.as_str(), 'C') || is_single_char(side.as_str(), 'P'),
        None => false,
    };
    if !side_ok {
        return false;
    }
    match &groups[2] {
        Some(expire) => parse_date(expire.as_str(), EXPIRY_FORMAT).is_some(),
        None => false,
    }
}

/// The option that the capture groups of a symbol describe.
pub fn bybit_info_from_captures(groups: &Vec<Option<String>>) -> (info: BybitInfo)
    requires
        groups_well_formed(groups.deep_view()),
    ensures
        info_of_groups(info, groups.deep_view()),
{
    proof {
        lemma_group_views(groups);
    }
    let base = groups[1].as_ref().unwrap().clone();
    let expire = parse_expiration_date(groups[2].as_ref().unwrap().as_str());
    let strike_price = groups[3].as_ref().unwrap().clone();
    let opt_type = if is_single_char(groups[4].as_ref().unwrap().as_str(), 'C') {
        OptionType::Call
    } else {
        OptionType::Put
    };
    let quote = clone_optional(&groups[5]);
    BybitInfo { base, expire, strike_price, opt_type, quote }
}

/// `r` is the option that the plain symbol with these parts describes.
pub open spec fn decodes_plain(r: Option<BybitInfo>, b: Seq<char>, d: Seq<char>, s: Seq<char>, side: char, q: bool) -> bool {
    r matches Some(info) && {
        &&& info.base@ == b
        &&& info.expire == expiry_moment(chrono_parse_date(d, EXPIRY_FORMAT@)->0)
        &&& info.strike_price@ == s
        &&& info.opt_type == (if side == 'C' {
            OptionType::Call
        } else {
            OptionType::Put
        })
        &&& info.quote.deep_view() == (if q {
            Some(usdt())
        } else {
            None
        })
    }
}

/// The groups of a plain symbol are well formed when chrono reads its
/// expiry, and they describe its parts.
proof fn lemma_plain_groups(b: Seq<char>, d: Seq<char>, s: Seq<char>, side: char, q: bool, info: BybitInfo)
    requires
        plain_symbol_parts(b, d, s, side),
        chrono_parse_date(d, EXPIRY_FORMAT@) is Some,
    ensures
        groups_well_formed(plain_symbol_groups(b, d, s, side, q)),
        info_of_groups(info, plain_symbol_groups(b, d, s, side, q)) ==> decodes_plain(
            Some(info),
            b,
            d,
            s,
            side,
            q,
        ),
{
    if side == 'C' {
        assert(seq![side] =~= seq!['C']);
    } else {
        assert(seq![side] =~= seq!['P']);
        assert(seq![side] != seq!['C']) by {
            assert(seq![side][0] != seq!['C'][0]);
        }
    }
}

proof fn lemma_plain_symbols_decode(g: Seq<Option<Seq<char>>>, symbol: Seq<char>)
    requires
        forall|b: Seq<char>, d: Seq<char>, s: Seq<char>, side: char, q: bool|
            plain_symbol_parts(b, d, s, side) && symbol == #[trigger] symbol_text(b, d, s, side, q)
                ==> Some(g) == Some(plain_symbol_groups(b, d, s, side, q)),
    ensures
        forall|b: Seq<char>, d: Seq<char>, s: Seq<char>, side: char, q: bool, info: BybitInfo|
            plain_symbol_parts(b, d, s, side) && symbol == #[trigger] symbol_text(b, d, s, side, q)
                && chrono_parse_date(d, EXPIRY_FORMAT@) is Some && #[trigger] info_of_groups(info, g)
                ==> groups_well_formed(g) && decodes_plain(Some(info), b, d, s, side, q),
        forall|b: Seq<char>, d: Seq<char>, s: Seq<char>, side: char, q: bool|
            plain_symbol_parts(b, d, s, side) && symbol == #[trigger] symbol_text(b, d, s, side, q)
                && chrono_parse_date(d, EXPIRY_FORMAT@) is Some ==> groups_well_formed(g),
{
    assert forall|b: Seq<char>, d: Seq<char>, s: Seq<char>, side: char, q: bool, info: BybitInfo|
        plain_symbol_parts(b, d, s, side) && symbol == #[trigger] symbol_text(b, d, s, side, q)
            && chrono_parse_date(d, EXPIRY_FORMAT@) is Some && #[trigger] info_of_groups(info, g)
        implies groups_well_formed(g) && decodes_plain(Some(info), b, d, s, side, q) by {
        lemma_plain_groups(b, d, s, side, q, info);
    }
    assert forall|b: Seq<char>, d: Seq<char>, s: Seq<char>, side: char, q: bool|
        plain_symbol_parts(b, d, s, side) && symbol == #[trigger] symbol_text(b, d, s, side, q)
            && chrono_parse_date(d, EXPIRY_FORMAT@) is Some implies groups_well_formed(g) by {
        lemma_plain_groups(b, d, s, side, q, BybitInfo {
            base: arbitrary(),
            expire: arbitrary(),
            strike_price: arbitrary(),
            opt_type: OptionType::Put,
            quote: None,
        });
    }
}

/// Decodes an option symbol such as `BTC-27DEC24-100000-C-USDT`: `None`
/// when the symbol does not match `SYMBOL_PATTERN` or its expiry is no
/// date, else the option that its groups describe.
pub fn extract_bybit_info(symbol: &str) -> (r: Option<BybitInfo>)
    ensures
        extracted(symbol@, r),
        r matches Some(info) ==> fields_in_symbol(info, symbol@),
        forall|b: Seq<char>, d: Seq<char>, s: Seq<char>, side: char, q: bool|
            plain_symbol_parts(b, d, s, side) && symbol@ == #[trigger] symbol_text(b, d, s, side, q)
                && chrono_parse_date(d, EXPIRY_FORMAT@) is Some ==> decodes_plain(r, b, d, s, side, q),
{
    match regex_captures(SYMBOL_PATTERN, symbol) {
        Some(groups) => {
            if !groups_are_well_formed(&groups) {
                proof {
                    lemma_plain_symbols_decode(groups.deep_view(), symbol@);
                }
                return None;
            }
            let info = bybit_info_from_captures(&groups);
            proof {
                lemma_group_views(&groups);
                assert(groups@[1] matches Some(t) ==> is_infix_of(t@, symbol@));
                assert(groups@[3] matches Some(t) ==> is_infix_of(t@, symbol@));
                assert(groups@[5] matches Some(t) ==> is_infix_of(t@, symbol@));
                lemma_plain_symbols_decode(groups.deep_view(), symbol@);
            }
            Some(info)
        },
        None => None,
    }
}

/// Address of the ticker endpoint of the REST API.
pub const OPTION_TICKERS_URL: &'static str = "https://api.bybit.com/v5/market/tickers";

/// The query of the request for the option tickers of `base_coin`.
pub fn option_tickers_query(base_coin: &str) -> (q: Vec<(String, String)>)
    ensures
        q.deep_view() == seq![("category"@, "option"@), ("baseCoin"@, base_coin@)],
{
    let mut q: Vec<(String, String)> = Vec::new();
    q.push((String::from_str("category"), String::from_str("option")));
    q.push((String::from_str("baseCoin"), String::from_str(base_coin)));
    assert(q.deep_view() =~= seq![("category"@, "option"@), ("baseCoin"@, base_coin@)]);
    q
}

} // verus!
