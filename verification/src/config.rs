//! Command-line settings: what to analyse, how to sort it and how to chart it.
use vstd::prelude::*;

use crate::text::{
    after_char, before_char, chars_of, contains_chars, contains_seq, is_space,
    lemma_before_absent_char, lemma_contains_char, lemma_cut_at_char, lemma_replaced_absent,
    lemma_replaced_prefix, occurs_at, replace_chars, replaced, split_at_char, split_words,
    string_of, views, words,
};

verus! {

/// How a chart of the space is drawn.
#[derive(Clone, Copy, Debug, PartialEq, Eq, Structural)]
pub enum ChartType {
    Pie,
    Colomns,
    Circle,
}

/// Order in which the entries of a directory are listed.
#[derive(Clone, Copy, Debug, PartialEq, Eq, Structural)]
pub enum SortType {
    Natural(SortDirection),
    Alphabetical(SortDirection),
    Size(SortDirection),
    Modification(SortDirection),
}

/// Ascending (`Up`) or descending (`Down`).
#[derive(Clone, Copy, Debug, PartialEq, Eq, Structural)]
pub enum SortDirection {
    Up,
    Down,
}

/// The settings of one run.
#[derive(Debug)]
pub struct Config {
    pub path: String,
    pub chart_type: ChartType,
    pub sort_type: SortType,
}

/// A value that was not understood and was replaced by the default.
#[derive(Clone, Copy, Debug, PartialEq, Eq, Structural)]
pub enum Notice {
    /// The value of `--chart` named no chart type; `Pie` is used.
    UnknownChartType,
    /// The value of `--sort` named no sort type; natural order is used.
    UnknownSortType,
}

/// Why no configuration came out of the arguments.
#[derive(Debug)]
pub enum ConfigError {
    /// The help text is to be shown and the program is to stop. `notices`
    /// are the values that were not understood before the request was met.
    HelpRequested { notices: Vec<Notice> },
}

/// What the arguments amount to.
pub enum ArgsModel {
    Help { notices: Seq<Notice> },
    Run { path: Seq<char>, chart: ChartType, sort: SortType, notices: Seq<Notice> },
}

/// The character views of the arguments.
pub open spec fn arg_views(args: Seq<String>) -> Seq<Seq<char>> {
    args.map_values(|a: String| a@)
}

/// All arguments, each followed by one space.
pub open spec fn joined(args: Seq<Seq<char>>) -> Seq<char>
    decreases args.len(),
{
    if args.len() == 0 {
        seq![]
    } else {
        joined(args.drop_last()) + args.last() + seq![' ']
    }
}

/// The line of arguments asks for the help text.
pub open spec fn asks_for_help(line: Seq<char>) -> bool {
    contains_seq(line, "--help"@) || contains_seq(line, "-h"@)
}

/// Names what `str::to_lowercase` returns for a string (std's Unicode lower-case
/// mapping, which is a function of the characters alone).
pub uninterp spec fn lowercase_of(s: Seq<char>) -> Seq<char>;

/// The chart type that a lower-case name stands for.
pub open spec fn chart_named(name: Seq<char>) -> Option<ChartType> {
    if name == "pie"@ {
        Some(ChartType::Pie)
    } else if name == "colomns"@ {
        Some(ChartType::Colomns)
    } else if name == "circle"@ {
        Some(ChartType::Circle)
    } else {
        None
    }
}

/// The sort type that a lower-case name stands for.
pub open spec fn sort_named(name: Seq<char>) -> Option<SortType> {
    if name == "size"@ {
        Some(SortType::Size(SortDirection::Down))
    } else if name == "alphabetical"@ {
        Some(SortType::Alphabetical(SortDirection::Up))
    } else if name == "modification"@ {
        Some(SortType::Modification(SortDirection::Up))
    } else if name == "natural"@ {
        Some(SortType::Natural(SortDirection::Up))
    } else {
        None
    }
}

/// The option name of a `name=value` word, with its dashes removed.
pub open spec fn option_name(word: Seq<char>) -> Seq<char> {
    replaced(before_char(word, '='), "-"@, ""@)
}

/// The value of a `name=value` word: what lies between its first and its
/// second `=`.
pub open spec fn option_value(word: Seq<char>) -> Seq<char> {
    before_char(after_char(word, '='), '=')
}

/// The outcome of reading `ws` from the left, starting from the given settings.
/// Words without `=` are ignored; a later option overrides an earlier one; an
/// unknown option name stops the reading with a request for help.
pub open spec fn settle(
    ws: Seq<Seq<char>>,
    home: Seq<char>,
    path: Seq<char>,
    chart: ChartType,
    sort: SortType,
    notices: Seq<Notice>,
) -> ArgsModel
    decreases ws.len(),
{
    if ws.len() == 0 {
        ArgsModel::Run { path, chart, sort, notices }
    } else {
        let w = ws[0];
        let rest = ws.drop_first();
        if !contains_seq(w, "="@) {
            settle(rest, home, path, chart, sort, notices)
        } else {
            let name = option_name(w);
            let value = option_value(w);
            if name == "p"@ || name == "path"@ {
                settle(rest, home, replaced(value, "~"@, home), chart, sort, notices)
            } else if name == "c"@ || name == "chart"@ {
                match chart_named(lowercase_of(value)) {
                    Some(c) => settle(rest, home, path, c, sort, notices),
                    None => settle(
                        rest,
                        home,
                        path,
                        ChartType::Pie,
                        sort,
                        notices.push(Notice::UnknownChartType),
                    ),
                }
            } else if name == "s"@ || name == "sort"@ {
                match sort_named(lowercase_of(value)) {
                    Some(s) => settle(rest, home, path, chart, s, notices),
                    None => settle(
                        rest,
                        home,
                        path,
                        chart,
                        SortType::Natural(SortDirection::Up),
                        notices.push(Notice::UnknownSortType),
                    ),
                }
            } else {
                ArgsModel::Help { notices }
            }
        }
    }
}

/// The directory that `~` stands for: the home directory when it is known.
pub open spec fn home_text(home: Option<String>) -> Seq<char> {
    match home {
        Some(h) => h@,
        None => "~"@,
    }
}

/// What the arguments amount to, given the home directory.
pub open spec fn parse_args(args: Seq<Seq<char>>, home: Seq<char>) -> ArgsModel {
    let line = joined(args);
    if asks_for_help(line) {
        ArgsModel::Help { notices: seq![] }
    } else {
        settle(
            words(line),
            home,
            "./"@,
            ChartType::Pie,
            SortType::Natural(SortDirection::Up),
            seq![],
        )
    }
}

/// The line of arguments is empty or ends with a space.
proof fn lemma_joined_ends_with_space(args: Seq<Seq<char>>)
    ensures
        joined(args).len() == 0 || joined(args).last() == ' ',
{
    if args.len() > 0 {
        let j = joined(args.drop_last()) + args.last() + seq![' '];
        assert(j.last() == ' ');
    }
}

/// `c` never occurs in `s`.
pub open spec fn lacks_char(s: Seq<char>, c: char) -> bool {
    forall|k: int| 0 <= k < s.len() ==> s[k] != c
}

/// A word ending in a non-space character has at least one word.
proof fn lemma_words_nonempty(s: Seq<char>)
    requires
        s.len() > 0,
        !is_space(s.last()),
    ensures
        words(s).len() > 0,
{
}

/// Words of a line made of two parts, the first of which is empty or ends
/// with a space, are the words of the first part and then those of the second.
proof fn lemma_words_append(a: Seq<char>, b: Seq<char>)
    requires
        a.len() == 0 || is_space(a.last()),
    ensures
        words(a + b) == words(a) + words(b),
    decreases b.len(),
{
    if b.len() == 0 {
        assert(a + b =~= a);
        assert(words(b) =~= Seq::<Seq<char>>::empty());
        assert(words(a) + words(b) =~= words(a));
    } else {
        let s = a + b;
        assert(s.drop_last() =~= a + b.drop_last());
        assert(s.last() == b.last());
        lemma_words_append(a, b.drop_last());
        let wa = words(a);
        let wb = words(b.drop_last());
        let c = b.last();
        if is_space(c) {
        } else if b.len() >= 2 && !is_space(b[b.len() - 2]) {
            assert(s[s.len() - 2] == b[b.len() - 2]);
            lemma_words_nonempty(b.drop_last());
            assert((wa + wb).drop_last() =~= wa + wb.drop_last());
            assert((wa + wb).last() == wb.last());
            assert(wa + wb.drop_last().push(wb.last().push(c)) =~= (wa + wb).drop_last().push(
                (wa + wb).last().push(c),
            ));
        } else {
            if s.len() >= 2 {
                if b.len() >= 2 {
                    assert(s[s.len() - 2] == b[b.len() - 2]);
                } else {
                    assert(s[s.len() - 2] == a.last());
                }
            }
            assert(wa + wb.push(seq![c]) =~= (wa + wb).push(seq![c]));
        }
    }
}

/// Every word of a line without `c` is without `c`.
proof fn lemma_words_lack_char(s: Seq<char>, c: char)
    requires
        lacks_char(s, c),
    ensures
        forall|k: int| 0 <= k < words(s).len() ==> lacks_char(#[trigger] words(s)[k], c),
    decreases s.len(),
{
    if s.len() > 0 {
        lemma_words_lack_char(s.drop_last(), c);
        let w = words(s.drop_last());
        let d = s.last();
        if is_space(d) {
        } else if s.len() >= 2 && !is_space(s[s.len() - 2]) {
            lemma_words_nonempty(s.drop_last());
            assert(lacks_char(w.last(), c));
            assert(lacks_char(w.last().push(d), c));
            let v = w.drop_last().push(w.last().push(d));
            assert forall|k: int| 0 <= k < v.len() implies lacks_char(#[trigger] v[k], c) by {
                if k < v.len() - 1 {
                    assert(v[k] == w[k]);
                }
            }
        } else {
            let v = w.push(seq![d]);
            assert forall|k: int| 0 <= k < v.len() implies lacks_char(#[trigger] v[k], c) by {
                if k < v.len() - 1 {
                    assert(v[k] == w[k]);
                }
            }
        }
    }
}

/// Reading words without `=` changes nothing.
proof fn lemma_settle_skips(
    ws: Seq<Seq<char>>,
    vs: Seq<Seq<char>>,
    home: Seq<char>,
    path: Seq<char>,
    chart: ChartType,
    sort: SortType,
    notices: Seq<Notice>,
)
    requires
        forall|k: int| 0 <= k < vs.len() ==> !contains_seq(#[trigger] vs[k], "="@),
    ensures
        settle(ws + vs, home, path, chart, sort, notices) == settle(
            ws,
            home,
            path,
            chart,
            sort,
            notices,
        ),
    decreases ws.len() + vs.len(),
{
    if ws.len() == 0 {
        assert(ws + vs =~= vs);
        if vs.len() > 0 {
            assert(!contains_seq(vs[0], "="@));
            lemma_settle_skips(ws, vs.drop_first(), home, path, chart, sort, notices);
            assert(ws + vs.drop_first() =~= vs.drop_first());
        }
    } else {
        let all = ws + vs;
        assert(all[0] == ws[0]);
        assert(all.drop_first() =~= ws.drop_first() + vs);
        let w = ws[0];
        let name = option_name(w);
        let value = option_value(w);
        if !contains_seq(w, "="@) {
            lemma_settle_skips(ws.drop_first(), vs, home, path, chart, sort, notices);
        } else if name == "p"@ || name == "path"@ {
            lemma_settle_skips(
                ws.drop_first(),
                vs,
                home,
                replaced(value, "~"@, home),
                chart,
                sort,
                notices,
            );
        } else if name == "c"@ || name == "chart"@ {
            lemma_settle_skips(ws.drop_first(), vs, home, path, ChartType::Pie, sort, notices.push(Notice::UnknownChartType));
            match chart_named(lowercase_of(value)) {
                Some(c) => lemma_settle_skips(ws.drop_first(), vs, home, path, c, sort, notices),
                None => {},
            }
        } else if name == "s"@ || name == "sort"@ {
            lemma_settle_skips(ws.drop_first(), vs, home, path, chart, SortType::Natural(SortDirection::Up), notices.push(Notice::UnknownSortType));
            match sort_named(lowercase_of(value)) {
                Some(t) => lemma_settle_skips(ws.drop_first(), vs, home, path, chart, t, notices),
                None => {},
            }
        }
    }
}

/// `-h` occurs in a line with an argument `x` appended iff it occurs in the
/// line without it, when `x` holds no `-h`.
proof fn lemma_dash_h_stays(j: Seq<char>, x: Seq<char>)
    requires
        j.len() == 0 || j.last() == ' ',
        !contains_seq(x, "-h"@),
    ensures
        contains_seq(j + x + seq![' '], "-h"@) == contains_seq(j, "-h"@),
{
    reveal_strlit("-h");
    let pat = "-h"@;
    let line = j + x + seq![' '];
    if contains_seq(line, pat) {
        let i = choose|i: int| occurs_at(line, pat, i);
        assert(line.subrange(i, i + 2)[0] == line[i]);
        assert(line.subrange(i, i + 2)[1] == line[i + 1]);
        assert(line[i] == '-' && line[i + 1] == 'h');
        if i + 2 <= j.len() {
            assert(j.subrange(i, i + 2) =~= line.subrange(i, i + 2));
            assert(occurs_at(j, pat, i));
        } else if i >= j.len() && i + 2 <= j.len() + x.len() {
            assert(x.subrange(i - j.len(), i - j.len() + 2) =~= line.subrange(i, i + 2));
            assert(occurs_at(x, pat, i - j.len()));
        } else if i + 1 == j.len() {
            assert(line[i] == j.last());
        } else {
            assert(i + 1 == j.len() + x.len());
            assert(line[i + 1] == ' ');
        }
    }
    if contains_seq(j, pat) {
        let i = choose|i: int| occurs_at(j, pat, i);
        assert(line.subrange(i, i + 2) =~= j.subrange(i, i + 2));
        assert(occurs_at(line, pat, i));
    }
}

/// An argument that holds neither `=` nor `-h` changes nothing when it is
/// added at the end: the settings, the notices and a request for help all come
/// out as without it.
pub proof fn lemma_plain_argument_ignored(args: Seq<Seq<char>>, x: Seq<char>, home: Seq<char>)
    requires
        !contains_seq(x, "="@),
        !contains_seq(x, "-h"@),
    ensures
        parse_args(args.push(x), home) == parse_args(args, home),
{
    reveal_strlit("-h");
    reveal_strlit("--help");
    reveal_strlit("=");
    let j = joined(args);
    let tail = x + seq![' '];
    assert(args.push(x).drop_last() =~= args);
    assert(joined(args.push(x)) == j + x + seq![' ']);
    assert(j + x + seq![' '] =~= j + tail);
    lemma_joined_ends_with_space(args);
    lemma_dash_h_stays(j, x);
    let line = j + tail;
    assert(contains_seq(line, "--help"@) ==> contains_seq(line, "-h"@)) by {
        if contains_seq(line, "--help"@) {
            let i = choose|i: int| occurs_at(line, "--help"@, i);
            assert(line.subrange(i, i + 6)[1] == line[i + 1]);
            assert(line.subrange(i, i + 6)[2] == line[i + 2]);
            assert(line.subrange(i + 1, i + 3) =~= "-h"@);
            assert(occurs_at(line, "-h"@, i + 1));
        }
    }
    assert(contains_seq(j, "--help"@) ==> contains_seq(j, "-h"@)) by {
        if contains_seq(j, "--help"@) {
            let i = choose|i: int| occurs_at(j, "--help"@, i);
            assert(j.subrange(i, i + 6)[1] == j[i + 1]);
            assert(j.subrange(i, i + 6)[2] == j[i + 2]);
            assert(j.subrange(i + 1, i + 3) =~= "-h"@);
            assert(occurs_at(j, "-h"@, i + 1));
        }
    }
    assert(contains_seq(j, "--help"@) ==> contains_seq(line, "--help"@)) by {
        if contains_seq(j, "--help"@) {
            let i = choose|i: int| occurs_at(j, "--help"@, i);
            assert(line.subrange(i, i + 6) =~= j.subrange(i, i + 6));
            assert(occurs_at(line, "--help"@, i));
        }
    }
    if !asks_for_help(j) {
        assert(!asks_for_help(line));
        lemma_words_append(j, tail);
        assert(lacks_char(tail, '=')) by {
            assert forall|k: int| 0 <= k < tail.len() implies tail[k] != '=' by {
                if k < x.len() {
                    if x[k] == '=' {
                        assert(x.subrange(k, k + 1) =~= "="@);
                        assert(occurs_at(x, "="@, k));
                    }
                }
            }
        }
        lemma_words_lack_char(tail, '=');
        let vs = words(tail);
        assert forall|k: int| 0 <= k < vs.len() implies !contains_seq(#[trigger] vs[k], "="@) by {
            if contains_seq(vs[k], "="@) {
                let i = choose|i: int| occurs_at(vs[k], "="@, i);
                assert(vs[k].subrange(i, i + 1)[0] == vs[k][i]);
            }
        }
        lemma_settle_skips(
            words(j),
            vs,
            home,
            "./"@,
            ChartType::Pie,
            SortType::Natural(SortDirection::Up),
            seq![],
        );
    }
}

/// A nonempty line without spaces is one word; a space after it adds none.
proof fn lemma_single_word(s: Seq<char>)
    requires
        s.len() > 0,
        forall|k: int| 0 <= k < s.len() ==> !is_space(#[trigger] s[k]),
    ensures
        words(s) == seq![s],
        words(s + seq![' ']) == seq![s],
    decreases s.len(),
{
    let c = s.last();
    assert(!is_space(c));
    if s.len() == 1 {
        assert(s.drop_last() =~= Seq::<char>::empty());
        assert(words(s.drop_last()) =~= Seq::<Seq<char>>::empty());
        assert(seq![c] =~= s);
        assert(Seq::<Seq<char>>::empty().push(seq![c]) =~= seq![s]);
        assert(words(s) == Seq::<Seq<char>>::empty().push(seq![c]));
    } else {
        lemma_single_word(s.drop_last());
        let w = words(s.drop_last());
        assert(w == seq![s.drop_last()]);
        assert(!is_space(s[s.len() - 2]));
        assert(s.drop_last().push(c) =~= s);
        assert(w.drop_last() =~= Seq::<Seq<char>>::empty());
        assert(w.last() == s.drop_last());
        assert(w.drop_last().push(w.last().push(c)) =~= seq![s]);
        assert(words(s) == w.drop_last().push(w.last().push(c)));
    }
    let t = s + seq![' '];
    assert(t.drop_last() =~= s);
    assert(is_space(t.last()));
}

/// A single argument `--path=v`, where `v` holds no space, no `=` and no
/// `-h`, sets the path to `v` with each `~` replaced by the home directory and
/// every other character kept as written (letter case included); the other
/// settings keep their defaults and nothing is noticed. Without a `~` the path
/// is `v` itself.
pub proof fn lemma_path_argument(v: Seq<char>, home: Seq<char>)
    requires
        forall|k: int| 0 <= k < v.len() ==> !is_space(#[trigger] v[k]) && v[k] != '=',
        !contains_seq(v, "-h"@),
    ensures
        parse_args(seq!["--path="@ + v], home) == (ArgsModel::Run {
            path: replaced(v, "~"@, home),
            chart: ChartType::Pie,
            sort: SortType::Natural(SortDirection::Up),
            notices: seq![],
        }),
        (forall|k: int| 0 <= k < v.len() ==> v[k] != '~') ==> parse_args(
            seq!["--path="@ + v],
            home,
        ) == (ArgsModel::Run {
            path: v,
            chart: ChartType::Pie,
            sort: SortType::Natural(SortDirection::Up),
            notices: seq![],
        }),
{
    reveal_strlit("--path=");
    reveal_strlit("-h");
    reveal_strlit("--help");
    reveal_strlit("=");
    reveal_strlit("~");
    reveal_strlit("-");
    reveal_strlit("");
    reveal_strlit("path");
    let head = seq!['-', '-', 'p', 'a', 't', 'h'];
    assert("--path="@ =~= head + seq!['=']);
    let x = "--path="@ + v;
    assert(x =~= head + seq!['='] + v);
    let args = seq![x];
    assert(args.drop_last() =~= Seq::<Seq<char>>::empty());
    assert(joined(args.drop_last()) =~= Seq::<char>::empty());
    assert(args.last() == x);
    let line = x + seq![' '];
    assert(Seq::<char>::empty() + x + seq![' '] =~= line);
    assert(joined(args) == line);
    // No `-h` in the argument, hence none in the line.
    assert(!contains_seq(x, "-h"@)) by {
        if contains_seq(x, "-h"@) {
            let i = choose|i: int| occurs_at(x, "-h"@, i);
            assert(x.subrange(i, i + 2)[0] == x[i]);
            assert(x.subrange(i, i + 2)[1] == x[i + 1]);
            if i >= 7 {
                assert(v.subrange(i - 7, i - 5) =~= x.subrange(i, i + 2));
                assert(occurs_at(v, "-h"@, i - 7));
            } else {
                assert(x[i] == '-' && x[i + 1] == 'h');
                assert(x[0] == '-' && x[1] == '-' && x[2] == 'p' && x[3] == 'a');
                assert(x[4] == 't' && x[5] == 'h' && x[6] == '=');
            }
        }
    }
    lemma_dash_h_stays(Seq::<char>::empty(), x);
    assert(Seq::<char>::empty() + x + seq![' '] =~= line);
    assert(!contains_seq(Seq::<char>::empty(), "-h"@));
    assert(!contains_seq(line, "--help"@)) by {
        if contains_seq(line, "--help"@) {
            let i = choose|i: int| occurs_at(line, "--help"@, i);
            assert(line.subrange(i, i + 6)[1] == line[i + 1]);
            assert(line.subrange(i, i + 6)[2] == line[i + 2]);
            assert(line.subrange(i + 1, i + 3) =~= "-h"@);
            assert(occurs_at(line, "-h"@, i + 1));
        }
    }
    assert(!asks_for_help(line));
    // The line is the one word `x`.
    assert forall|k: int| 0 <= k < x.len() implies !is_space(#[trigger] x[k]) by {
        if k >= 7 {
            assert(x[k] == v[k - 7]);
        }
    }
    lemma_single_word(x);
    // The word names the path option and carries `v`.
    assert(contains_seq(x, "="@)) by {
        assert(x.subrange(6, 7) =~= "="@);
        assert(occurs_at(x, "="@, 6));
    }
    lemma_cut_at_char(head, '=', v);
    lemma_before_absent_char(v, '=');
    assert(option_value(x) == v);
    assert(head =~= seq!['-'] + seq!['-', 'p', 'a', 't', 'h']);
    assert(seq!['-', 'p', 'a', 't', 'h'] =~= seq!['-'] + seq!['p', 'a', 't', 'h']);
    let none = Seq::<char>::empty();
    assert(""@ == none);
    assert("-"@ =~= seq!['-']);
    lemma_replaced_prefix(seq!['-'], seq!['-', 'p', 'a', 't', 'h'], none);
    lemma_replaced_prefix(seq!['-'], seq!['p', 'a', 't', 'h'], none);
    lemma_contains_char(seq!['p', 'a', 't', 'h'], '-');
    lemma_replaced_absent(seq!['p', 'a', 't', 'h'], seq!['-'], none);
    assert(none + seq!['p', 'a', 't', 'h'] =~= seq!['p', 'a', 't', 'h']);
    assert("path"@ =~= seq!['p', 'a', 't', 'h']);
    assert(option_name(x) == "path"@);
    let ws = seq![x];
    assert(ws.drop_first() =~= Seq::<Seq<char>>::empty());
    assert(ws[0] == x);
    assert(words(line) == ws);
    let path = replaced(v, "~"@, home);
    let result = ArgsModel::Run {
        path,
        chart: ChartType::Pie,
        sort: SortType::Natural(SortDirection::Up),
        notices: seq![],
    };
    assert(settle(ws.drop_first(), home, path, ChartType::Pie, SortType::Natural(SortDirection::Up), seq![]) == result);
    assert(settle(ws, home, "./"@, ChartType::Pie, SortType::Natural(SortDirection::Up), seq![]) == result);
    assert(parse_args(args, home) == result);
    if forall|k: int| 0 <= k < v.len() ==> v[k] != '~' {
        lemma_contains_char(v, '~');
        assert("~"@ =~= seq!['~']);
        lemma_replaced_absent(v, seq!['~'], home);
    }
}

/// Lower-cases a string by calling `str::to_lowercase`. Trusted: the contract
/// claims only that the result is `lowercase_of` the input's characters, that is,
/// that it depends on them alone; the Unicode case mapping itself is left unstated.
#[verifier::external_body]
fn to_lowercase(s: &str) -> (res: String)
    ensures
        res@ == lowercase_of(s@),
{
    s.to_lowercase()
}

fn same_chars(a: &Vec<char>, b: &Vec<char>) -> (res: bool)
    ensures
        res == (a@ == b@),
{
    if a.len() != b.len() {
        return false;
    }
    let mut i: usize = 0;
    while i < a.len()
        invariant
            a.len() == b.len(),
            i <= a.len(),
            forall|j: int| 0 <= j < i ==> a@[j] == b@[j],
        decreases a.len() - i,
    {
        if a[i] != b[i] {
            return false;
        }
        i = i + 1;
    }
    assert(a@ =~= b@);
    true
}

fn is_word(a: &Vec<char>, lit: &str) -> (res: bool)
    ensures
        res == (a@ == lit@),
{
    same_chars(a, &chars_of(lit))
}

/// The chart type named by an already lower-cased value.
pub fn chart_type_named(name: &str) -> (res: Option<ChartType>)
    ensures
        res == chart_named(name@),
{
    let n = chars_of(name);
    if is_word(&n, "pie") {
        Some(ChartType::Pie)
    } else if is_word(&n, "colomns") {
        Some(ChartType::Colomns)
    } else if is_word(&n, "circle") {
        Some(ChartType::Circle)
    } else {
        None
    }
}

/// The sort type named by an already lower-cased value.
pub fn sort_type_named(name: &str) -> (res: Option<SortType>)
    ensures
        res == sort_named(name@),
{
    let n = chars_of(name);
    if is_word(&n, "size") {
        Some(SortType::Size(SortDirection::Down))
    } else if is_word(&n, "alphabetical") {
        Some(SortType::Alphabetical(SortDirection::Up))
    } else if is_word(&n, "modification") {
        Some(SortType::Modification(SortDirection::Up))
    } else if is_word(&n, "natural") {
        Some(SortType::Natural(SortDirection::Up))
    } else {
        None
    }
}

/// All arguments, each followed by one space.
fn join_args(args: &Vec<String>) -> (res: Vec<char>)
    ensures
        res@ == joined(arg_views(args@)),
{
    let mut line: Vec<char> = Vec::new();
    let mut i: usize = 0;
    assert(arg_views(args@).take(0) =~= Seq::<Seq<char>>::empty());
    while i < args.len()
        invariant
            i <= args.len(),
            line@ == joined(arg_views(args@).take(i as int)),
        decreases args.len() - i,
    {
        let a = chars_of(args[i].as_str());
        let mut k: usize = 0;
        let ghost before = line@;
        while k < a.len()
            invariant
                k <= a.len(),
                line@ == before + a@.take(k as int),
            decreases a.len() - k,
        {
            line.push(a[k]);
            assert(a@.take(k + 1) == a@.take(k as int).push(a@[k as int]));
            k = k + 1;
        }
        line.push(' ');
        proof {
            let vs = arg_views(args@);
            assert(vs.take(i + 1).drop_last() =~= vs.take(i as int));
            assert(vs.take(i + 1).last() == args@[i as int]@);
            assert(a@.take(a.len() as int) == a@);
        }
        i = i + 1;
    }
    assert(arg_views(args@).take(args.len() as int) =~= arg_views(args@));
    line
}

impl Config {
    /// Reads the settings from the program's arguments (without the program's
    /// name). `home` is the user's home directory, where it is known; a `~` in
    /// the path stands for it.
    ///
    /// The arguments are joined, each followed by a space. If that line
    /// contains `--help` or `-h`, help is requested. Otherwise each
    /// whitespace-separated word of the form `name=value` is read in turn:
    /// `p`/`path`, `c`/`chart` and `s`/`sort` (dashes in the name are ignored)
    /// set the path, the chart type and the sort order, and any other name
    /// requests help. A value that names no chart or sort type gives the
    /// default and a notice.
    pub fn new(args: Vec<String>, home: Option<String>) -> (res: Result<
        (Config, Vec<Notice>),
        ConfigError,
    >)
        ensures
            match parse_args(arg_views(args@), home_text(home)) {
                ArgsModel::Run { path, chart, sort, notices } => {
                    &&& res is Ok
                    &&& res->Ok_0.0.path@ == path
                    &&& res->Ok_0.0.chart_type == chart
                    &&& res->Ok_0.0.sort_type == sort
                    &&& res->Ok_0.1@ == notices
                },
                ArgsModel::Help { notices } => {
                    &&& res is Err
                    &&& res->Err_0->HelpRequested_notices@ == notices
                },
            },
    {
        let line = join_args(&args);
        if contains_chars(&line, &chars_of("--help")) || contains_chars(&line, &chars_of("-h")) {
            return Err(ConfigError::HelpRequested { notices: Vec::new() });
        }
        let home_chars = match &home {
            Some(h) => chars_of(h.as_str()),
            None => chars_of("~"),
        };
        let ws = split_words(&line);
        let ghost wsv = views(ws@);
        let ghost target = settle(
            wsv,
            home_text(home),
            "./"@,
            ChartType::Pie,
            SortType::Natural(SortDirection::Up),
            seq![],
        );
        let mut path = chars_of("./");
        let mut chart = ChartType::Pie;
        let mut sort = SortType::Natural(SortDirection::Up);
        let mut notices: Vec<Notice> = Vec::new();
        let tilde = chars_of("~");
        let dash = chars_of("-");
        let nothing = chars_of("");
        let mut i: usize = 0;
        assert(wsv.skip(0) == wsv);
        assert(target == parse_args(arg_views(args@), home_text(home)));
        while i < ws.len()
            invariant
                wsv == views(ws@),
                wsv == words(line@),
                target == parse_args(arg_views(args@), home_text(home)),
                home_chars@ == home_text(home),
                tilde@ == "~"@,
                dash@ == "-"@,
                nothing@ == ""@,
                i <= ws.len(),
                target == settle(wsv.skip(i as int), home_chars@, path@, chart, sort, notices@),
            decreases ws.len() - i,
        {
            let ghost rest = wsv.skip(i as int);
            assert(rest[0] == ws@[i as int]@);
            assert(rest.drop_first() =~= wsv.skip(i + 1));
            let w = &ws[i];
            if contains_chars(w, &chars_of("=")) {
                let (head, tail) = split_at_char(w, '=');
                let (value, _) = split_at_char(&tail, '=');
                let name = replace_chars(&head, &dash, &nothing);
                if is_word(&name, "p") || is_word(&name, "path") {
                    path = replace_chars(&value, &tilde, &home_chars);
                } else if is_word(&name, "c") || is_word(&name, "chart") {
                    let lowered = to_lowercase(string_of(&value).as_str());
                    match chart_type_named(lowered.as_str()) {
                        Some(c) => {
                            chart = c;
                        },
                        None => {
                            chart = ChartType::Pie;
                            notices.push(Notice::UnknownChartType);
                        },
                    }
                } else if is_word(&name, "s") || is_word(&name, "sort") {
                    let lowered = to_lowercase(string_of(&value).as_str());
                    match sort_type_named(lowered.as_str()) {
                        Some(s) => {
                            sort = s;
                        },
                        None => {
                            sort = SortType::Natural(SortDirection::Up);
                            notices.push(Notice::UnknownSortType);
                        },
                    }
                } else {
                    assert(contains_seq(rest[0], "="@));
                    assert(name@ == option_name(rest[0]));
                    assert(target == ArgsModel::Help { notices: notices@ });
                    return Err(ConfigError::HelpRequested { notices });
                }
            }
            i = i + 1;
        }
        Ok((Config { path: string_of(&path), chart_type: chart, sort_type: sort }, notices))
    }
}

} // verus!
