use vstd::prelude::*;

use crate::command::GroupView;
use crate::hosts::{
    after_hash, before_hash, classify, comment_of, comment_text, disabled_mark,
    eol_of, fields_one_line, finish, first_line, first_newline, is_header_words, join_aliases, lines, lines_from, parse,
    render, render_line, render_lines, scan, trim_end, trim_start, uses_crlf, word_dashes,
    word_hash, ItemView, LineView,
};
use crate::ip::{
    double_colon_at, first_double_colon, is_digit, is_ip_char, is_ip_spec, is_ipv4, is_ipv6,
    is_octet, is_hextet,
};
use crate::text::{
    all_blank, flush, is_blank, lacks, no_blank, pieces, pieces_from, words, words_from,
};

verus! {

/// A word that can stand as an alias: not empty, with no blank and no `#`.
pub open spec fn valid_word(w: Seq<char>) -> bool {
    &&& w.len() > 0
    &&& no_blank(w)
    &&& lacks(w, '#')
}

/// A comment that reads back as itself: on one line, with no blank at either end.
pub open spec fn valid_comment(c: Option<Seq<char>>) -> bool {
    match c {
        Some(c) => lacks(c, '\n') && (c.len() > 0 ==> !is_blank(c[0]) && !is_blank(c.last())),
        None => true,
    }
}

/// An entry whose address, aliases and flag its rendered line reads back as:
/// a valid address and at least one alias.
pub open spec fn valid_fields(it: ItemView) -> bool {
    &&& is_ip_spec(it.ip)
    &&& it.aliases.len() >= 1
    &&& forall|i: int| 0 <= i < it.aliases.len() ==> valid_word(#[trigger] it.aliases[i])
}

/// An entry that its rendered line reads back as, comment included.
pub open spec fn valid_item(it: ItemView) -> bool {
    &&& valid_fields(it)
    &&& valid_comment(it.comment)
}

/// Two entries with the same address, aliases and flag.
pub open spec fn same_fields(a: ItemView, b: ItemView) -> bool {
    &&& a.ip == b.ip
    &&& a.aliases == b.aliases
    &&& a.enabled == b.enabled
}

pub open spec fn valid_eol(eol: Seq<char>) -> bool {
    eol == seq!['\n'] || eol == seq!['\r', '\n']
}

proof fn lemma_words_glue(w: Seq<char>, s: Seq<char>, cur: Seq<char>)
    requires
        no_blank(w),
    ensures
        words_from(w + s, cur) == words_from(s, cur + w),
    decreases w.len(),
{
    if w.len() == 0 {
        assert(w + s =~= s);
        assert(cur + w =~= cur);
    } else {
        assert((w + s)[0] == w[0]);
        assert((w + s).drop_first() =~= w.drop_first() + s);
        lemma_words_glue(w.drop_first(), s, cur.push(w[0]));
        assert(cur.push(w[0]) + w.drop_first() =~= cur + w);
    }
}

proof fn lemma_words_blank(s: Seq<char>, cur: Seq<char>)
    requires
        all_blank(s),
    ensures
        words_from(s, cur) == flush(cur),
    decreases s.len(),
{
    if s.len() > 0 {
        assert(is_blank(s[0]));
        lemma_words_blank(s.drop_first(), Seq::empty());
        assert(flush(Seq::<char>::empty()) =~= Seq::<Seq<char>>::empty());
        assert(flush(cur) + Seq::<Seq<char>>::empty() =~= flush(cur));
    }
}

proof fn lemma_words_space(s: Seq<char>, cur: Seq<char>)
    ensures
        words_from(seq![' '] + s, cur) == flush(cur) + words_from(s, Seq::empty()),
{
    assert((seq![' '] + s)[0] == ' ');
    assert((seq![' '] + s).drop_first() =~= s);
}

proof fn lemma_words_aliases(al: Seq<Seq<char>>, tail: Seq<char>, w: Seq<char>)
    requires
        w.len() > 0,
        forall|i: int| 0 <= i < al.len() ==> valid_word(#[trigger] al[i]),
        all_blank(tail),
    ensures
        words_from(join_aliases(al) + tail, w) == seq![w] + al,
    decreases al.len(),
{
    if al.len() == 0 {
        assert(join_aliases(al) + tail =~= tail);
        lemma_words_blank(tail, w);
        assert(seq![w] + al =~= seq![w]);
    } else {
        let rest = al.drop_first();
        assert(valid_word(al[0]));
        assert forall|i: int| 0 <= i < rest.len() implies valid_word(#[trigger] rest[i]) by {
            assert(rest[i] == al[i + 1]);
        }
        lemma_words_aliases(rest, tail, al[0]);
        assert(join_aliases(al) + tail =~= seq![' '] + (al[0] + (join_aliases(rest) + tail)));
        lemma_words_space(al[0] + (join_aliases(rest) + tail), w);
        lemma_words_glue(al[0], join_aliases(rest) + tail, Seq::empty());
        assert(Seq::<char>::empty() + al[0] =~= al[0]);
        assert(seq![w] + (seq![al[0]] + rest) =~= seq![w] + al);
    }
}

proof fn lemma_ip_chars(s: Seq<char>)
    requires
        is_ip_spec(s),
    ensures
        s.len() > 0,
        no_blank(s),
        lacks(s, '#'),
        lacks(s, '-'),
        lacks(s, '\n'),
        lacks(s, '\r'),
{
    assert forall|i: int| 0 <= i < s.len() implies !is_blank(#[trigger] s[i]) && s[i] != '#'
        && s[i] != '-' by {
        assert(is_ip_char(s[i]));
    }
    if s.len() == 0 {
        assert(crate::text::pieces(s, '.').len() == 1);
        assert(crate::text::pieces(s, ':').len() == 1);
    }
}

proof fn lemma_hash_skip(x: Seq<char>, y: Seq<char>)
    requires
        lacks(x, '#'),
    ensures
        before_hash(x + y) == x + before_hash(y),
        after_hash(x + y) == after_hash(y),
    decreases x.len(),
{
    if x.len() == 0 {
        assert(x + y =~= y);
        assert(x + before_hash(y) =~= before_hash(y));
    } else {
        assert((x + y)[0] == x[0]);
        assert((x + y).drop_first() =~= x.drop_first() + y);
        lemma_hash_skip(x.drop_first(), y);
        assert(seq![x[0]] + (x.drop_first() + before_hash(y)) =~= x + before_hash(y));
    }
}

proof fn lemma_trim_start_blank(x: Seq<char>, y: Seq<char>)
    requires
        all_blank(x),
    ensures
        trim_start(x + y) == trim_start(y),
    decreases x.len(),
{
    if x.len() == 0 {
        assert(x + y =~= y);
    } else {
        assert((x + y)[0] == x[0]);
        assert((x + y).drop_first() =~= x.drop_first() + y);
        lemma_trim_start_blank(x.drop_first(), y);
    }
}

proof fn lemma_trim_end_blank(x: Seq<char>, y: Seq<char>)
    requires
        all_blank(y),
    ensures
        trim_end(x + y) == trim_end(x),
    decreases y.len(),
{
    if y.len() == 0 {
        assert(x + y =~= x);
    } else {
        assert((x + y).last() == y.last());
        assert((x + y).drop_last() =~= x + y.drop_last());
        lemma_trim_end_blank(x, y.drop_last());
    }
}

proof fn lemma_join_chars(al: Seq<Seq<char>>)
    requires
        forall|i: int| 0 <= i < al.len() ==> valid_word(#[trigger] al[i]),
    ensures
        lacks(join_aliases(al), '#'),
        lacks(join_aliases(al), '\n'),
        lacks(join_aliases(al), '\r'),
        al.len() > 0 ==> join_aliases(al) == seq![' '] + (al[0] + join_aliases(al.drop_first())),
    decreases al.len(),
{
    if al.len() > 0 {
        let rest = al.drop_first();
        assert forall|i: int| 0 <= i < rest.len() implies valid_word(#[trigger] rest[i]) by {
            assert(rest[i] == al[i + 1]);
        }
        lemma_join_chars(rest);
        let j = join_aliases(al);
        assert(valid_word(al[0]));
        assert(j =~= seq![' '] + (al[0] + join_aliases(rest)));
        assert forall|i: int| 0 <= i < j.len() implies #[trigger] j[i] != '#' && j[i] != '\n'
            && j[i] != '\r' by {
            if i >= 1 && i < 1 + al[0].len() {
                assert(j[i] == al[0][i - 1]);
                assert(!is_blank(al[0][i - 1]));
            } else if i >= 1 + al[0].len() {
                assert(j[i] == join_aliases(rest)[i - 1 - al[0].len()]);
            }
        }
    }
}

proof fn lemma_first_line(s: Seq<char>)
    ensures
        lacks(first_line(s), '\n'),
        lacks(s, '\n') ==> first_line(s) == s,
    decreases s.len(),
{
    if s.len() > 0 && s[0] != '\n' {
        lemma_first_line(s.drop_first());
        let f = first_line(s);
        assert forall|i: int| 0 <= i < f.len() implies #[trigger] f[i] != '\n' by {
            if i > 0 {
                assert(f[i] == first_line(s.drop_first())[i - 1]);
            }
        }
        if lacks(s, '\n') {
            assert(lacks(s.drop_first(), '\n'));
            assert(f =~= s);
        }
    } else if s.len() == 0 {
        assert(first_line(s) =~= s);
    }
}

proof fn lemma_join_no_newline(al: Seq<Seq<char>>)
    requires
        forall|i: int| 0 <= i < al.len() ==> lacks(#[trigger] al[i], '\n'),
    ensures
        lacks(join_aliases(al), '\n'),
    decreases al.len(),
{
    if al.len() > 0 {
        let rest = al.drop_first();
        assert forall|i: int| 0 <= i < rest.len() implies lacks(#[trigger] rest[i], '\n') by {
            assert(rest[i] == al[i + 1]);
        }
        lemma_join_no_newline(rest);
        let j = join_aliases(al);
        assert(lacks(al[0], '\n'));
        assert(j =~= seq![' '] + (al[0] + join_aliases(rest)));
        assert forall|i: int| 0 <= i < j.len() implies #[trigger] j[i] != '\n' by {
            if i >= 1 && i < 1 + al[0].len() {
                assert(j[i] == al[0][i - 1]);
            } else if i >= 1 + al[0].len() {
                assert(j[i] == join_aliases(rest)[i - 1 - al[0].len()]);
            }
        }
    }
}

proof fn lemma_fields_one_line(it: ItemView)
    requires
        valid_fields(it),
    ensures
        fields_one_line(it),
{
    lemma_ip_chars(it.ip);
    assert forall|i: int| 0 <= i < it.aliases.len() implies lacks(#[trigger] it.aliases[i], '\n') by {
        assert(valid_word(it.aliases[i]));
        assert forall|k: int| 0 <= k < it.aliases[i].len() implies #[trigger] it.aliases[i][k] != '\n' by {
            assert(!is_blank(it.aliases[i][k]));
        }
    }
}

/// The first word of `w + s`, where `s` starts with a blank, is `w`.
proof fn lemma_first_word(w: Seq<char>, al: Seq<Seq<char>>, r: Seq<char>, cur: Seq<char>)
    requires
        w.len() > 0,
        no_blank(w),
        al.len() > 0,
        join_aliases(al) == seq![' '] + (al[0] + join_aliases(al.drop_first())),
    ensures
        words_from(w + (join_aliases(al) + r), cur) == seq![cur + w] + words_from(
            al[0] + join_aliases(al.drop_first()) + r,
            Seq::empty(),
        ),
{
    lemma_words_glue(w, join_aliases(al) + r, cur);
    let z = al[0] + join_aliases(al.drop_first()) + r;
    assert(join_aliases(al) + r =~= seq![' '] + z);
    lemma_words_space(z, cur + w);
}

/// The line of a valid entry is no group header.
proof fn lemma_render_not_header(it: ItemView, eol: Seq<char>)
    requires
        valid_fields(it),
        valid_eol(eol),
    ensures
        !is_header_words(words(render_line(it, eol))),
{
    lemma_fields_one_line(it);
    let ip = it.ip;
    let al = it.aliases;
    let j = join_aliases(al);
    let c = comment_text(it.comment);
    let line = render_line(it, eol);
    lemma_ip_chars(ip);
    lemma_join_chars(al);
    let w = words(line);
    if it.enabled {
        assert(line =~= ip + (j + (c + eol)));
        lemma_first_word(ip, al, c + eol, Seq::empty());
        assert(Seq::<char>::empty() + ip =~= ip);
        assert(w[0] == ip);
        if ip == word_hash() {
            assert(ip[0] == '#');
        }
    } else {
        let hash = seq!['#'];
        assert(line =~= hash + (seq![' '] + (ip + (j + (c + eol)))));
        lemma_words_glue(hash, seq![' '] + (ip + (j + (c + eol))), Seq::empty());
        assert(Seq::<char>::empty() + hash =~= hash);
        lemma_words_space(ip + (j + (c + eol)), hash);
        lemma_first_word(ip, al, c + eol, Seq::empty());
        assert(Seq::<char>::empty() + ip =~= ip);
        assert(w[1] == ip);
        if ip == word_dashes() {
            assert(ip[0] == '-');
        }
    }
}

/// A valid comment, written after `# ` and before the line ending, reads back.
proof fn lemma_comment_read(cm: Seq<char>, eol: Seq<char>)
    requires
        valid_comment(Some(cm)),
        valid_eol(eol),
    ensures
        trim_end(trim_start(seq![' '] + cm + eol)) == cm,
{
    assert(all_blank(eol));
    lemma_trim_start_blank(seq![' '], cm + eol);
    assert(seq![' '] + cm + eol =~= seq![' '] + (cm + eol));
    lemma_trim_end_blank(cm, eol);
    if cm.len() > 0 {
        assert((cm + eol)[0] == cm[0]);
        assert(trim_start(cm + eol) == cm + eol);
        assert(trim_end(cm) == cm);
    } else {
        assert(cm + eol =~= eol + Seq::<char>::empty());
        lemma_trim_start_blank(eol, Seq::<char>::empty());
        assert(trim_start(Seq::<char>::empty()) == Seq::<char>::empty());
        assert(trim_end(Seq::<char>::empty()) == Seq::<char>::empty());
        assert(cm =~= Seq::<char>::empty());
    }
}

/// The part of a valid entry's line after the disabled mark: the words before
/// its `#` and its comment.
proof fn lemma_body_read(it: ItemView, eol: Seq<char>, p: Seq<char>)
    requires
        valid_fields(it),
        valid_eol(eol),
        p == Seq::<char>::empty() || p == seq![' '],
    ensures
        ({
            let body = p + it.ip + join_aliases(it.aliases) + comment_text(it.comment) + eol;
            let tail: Seq<char> = match it.comment {
                Some(_) => seq![' '],
                None => eol,
            };
            &&& before_hash(body) == p + it.ip + join_aliases(it.aliases) + tail
            &&& valid_comment(it.comment) ==> comment_of(body) == it.comment
        }),
{
    let ip = it.ip;
    let j = join_aliases(it.aliases);
    lemma_ip_chars(ip);
    lemma_join_chars(it.aliases);
    let body = p + ip + j + comment_text(it.comment) + eol;
    let head = p + ip + j;
    assert forall|i: int| 0 <= i < head.len() implies #[trigger] head[i] != '#' && head[i] != '\n' by {
        if i < p.len() {
        } else if i < p.len() + ip.len() {
            assert(head[i] == ip[i - p.len()]);
        } else {
            assert(head[i] == j[i - p.len() - ip.len()]);
        }
    }
    match it.comment {
        Some(cm) => {
            let x = head + seq![' '];
            let y = seq!['#'] + (seq![' '] + first_line(cm) + eol);
            assert(body =~= x + y);
            assert(lacks(x, '#'));
            lemma_hash_skip(x, y);
            assert(y.drop_first() =~= seq![' '] + first_line(cm) + eol);
            assert(before_hash(y) == Seq::<char>::empty());
            assert(x + Seq::<char>::empty() =~= x);
            if valid_comment(it.comment) {
                lemma_first_line(cm);
                lemma_comment_read(cm, eol);
            }
        },
        None => {
            assert(body =~= (head + eol) + Seq::<char>::empty());
            assert(lacks(head + eol, '#'));
            lemma_hash_skip(head + eol, Seq::<char>::empty());
            assert((head + eol) + Seq::<char>::empty() =~= head + eol);
        },
    }
}

/// The line of an entry with a valid address and at least one alias reads
/// back as an entry with the same address, aliases and flag; with a valid
/// comment too, as that very entry.
pub proof fn lemma_classify_render(it: ItemView, eol: Seq<char>)
    requires
        valid_fields(it),
        valid_eol(eol),
    ensures
        classify(render_line(it, eol)) is Entry,
        same_fields(classify(render_line(it, eol))->Entry_0, it),
        valid_comment(it.comment) ==> classify(render_line(it, eol)) == LineView::Entry(it),
{
    lemma_fields_one_line(it);
    let ip = it.ip;
    let al = it.aliases;
    let j = join_aliases(al);
    let line = render_line(it, eol);
    lemma_ip_chars(ip);
    lemma_join_chars(al);
    lemma_render_not_header(it, eol);
    assert(line[0] == if it.enabled { ip[0] } else { '#' });
    assert(trim_start(line) == line);
    let p: Seq<char> = if it.enabled { Seq::empty() } else { seq![' '] };
    let body = if it.enabled { line } else { line.drop_first() };
    assert(body =~= p + ip + j + comment_text(it.comment) + eol);
    lemma_body_read(it, eol, p);
    let tail: Seq<char> = match it.comment {
        Some(_) => seq![' '],
        None => eol,
    };
    let data = p + ip + j + tail;
    assert(all_blank(tail));
    lemma_words_aliases(al, tail, ip);
    lemma_words_glue(ip, j + tail, Seq::empty());
    assert(Seq::<char>::empty() + ip =~= ip);
    if it.enabled {
        assert(data =~= ip + (j + tail));
    } else {
        assert(data =~= seq![' '] + (ip + (j + tail)));
        lemma_words_space(ip + (j + tail), Seq::empty());
        assert(flush(Seq::<char>::empty()) + words_from(ip + (j + tail), Seq::empty())
            =~= words_from(ip + (j + tail), Seq::empty()));
    }
    let fields = words(data);
    assert(fields == seq![ip] + al);
    assert(fields.skip(1) =~= al);
}

/// All entries of the groups, in order.
pub open spec fn all_entries(gs: Seq<GroupView>) -> Seq<ItemView>
    decreases gs.len(),
{
    if gs.len() == 0 {
        Seq::empty()
    } else {
        gs[0].list + all_entries(gs.drop_first())
    }
}

proof fn lemma_lines_glue(x: Seq<char>, rest: Seq<char>, cur: Seq<char>)
    requires
        lacks(x, '\n'),
    ensures
        lines_from(x + seq!['\n'] + rest, cur) == seq![cur + x + seq!['\n']] + lines_from(
            rest,
            Seq::empty(),
        ),
    decreases x.len(),
{
    if x.len() == 0 {
        let s = x + seq!['\n'] + rest;
        assert(s[0] == '\n');
        assert(s.drop_first() =~= rest);
        assert(cur.push('\n') =~= cur + x + seq!['\n']);
    } else {
        let s = x + seq!['\n'] + rest;
        assert(s[0] == x[0]);
        assert(s.drop_first() =~= x.drop_first() + seq!['\n'] + rest);
        lemma_lines_glue(x.drop_first(), rest, cur.push(x[0]));
        assert(cur.push(x[0]) + x.drop_first() =~= cur + x);
    }
}

/// Every entry's line is one line: its only `\n` ends it.
proof fn lemma_line_shape(it: ItemView, eol: Seq<char>)
    requires
        valid_eol(eol),
    ensures
        ({
            let x = render_line(it, eol).drop_last();
            &&& render_line(it, eol) == x + seq!['\n']
            &&& lacks(x, '\n')
        }),
{
    let line = render_line(it, eol);
    let x = line.drop_last();
    assert(line =~= x + seq!['\n']);
    if !fields_one_line(it) {
        return;
    }
    lemma_join_no_newline(it.aliases);
    let m = disabled_mark(it.enabled);
    let j = join_aliases(it.aliases);
    let c = comment_text(it.comment);
    let e = eol.drop_last();
    assert(x =~= m + it.ip + j + c + e);
    assert forall|i: int| 0 <= i < x.len() implies #[trigger] x[i] != '\n' by {
        let a = m.len();
        let b = a + it.ip.len();
        let d = b + j.len();
        let f = d + c.len();
        if i < a {
        } else if i < b {
            assert(x[i] == it.ip[i - a]);
        } else if i < d {
            assert(x[i] == j[i - b]);
        } else if i < f {
            assert(x[i] == c[i - d]);
            match it.comment {
                Some(cm) => {
                    lemma_first_line(cm);
                    if i - d >= 3 {
                        assert(c[i - d] == first_line(cm)[i - d - 3]);
                    }
                },
                None => {},
            }
        } else {
            assert(x[i] == e[i - f]);
        }
    }
}

proof fn lemma_lines_render(items: Seq<ItemView>, eol: Seq<char>)
    requires
        valid_eol(eol),
    ensures
        lines(render_lines(items, eol)) == items.map_values(|it: ItemView| render_line(it, eol)),
    decreases items.len(),
{
    if items.len() == 0 {
        assert(lines(render_lines(items, eol)) =~= items.map_values(
            |it: ItemView| render_line(it, eol),
        ));
    } else {
        let rest = items.drop_first();
        lemma_lines_render(rest, eol);
        lemma_line_shape(items[0], eol);
        let x = render_line(items[0], eol).drop_last();
        assert(render_lines(items, eol) =~= x + seq!['\n'] + render_lines(rest, eol));
        lemma_lines_glue(x, render_lines(rest, eol), Seq::empty());
        assert(Seq::<char>::empty() + x + seq!['\n'] =~= render_line(items[0], eol));
        assert(items.map_values(|it: ItemView| render_line(it, eol)) =~= seq![
            render_line(items[0], eol),
        ] + rest.map_values(|it: ItemView| render_line(it, eol)));
    }
}

/// Lines that are all entries make one default group holding those entries.
proof fn lemma_scan_entries(ls: Seq<Seq<char>>, items: Seq<ItemView>)
    requires
        ls.len() == items.len(),
        forall|i: int| 0 <= i < ls.len() ==> classify(#[trigger] ls[i]) == LineView::Entry(items[i]),
        forall|i: int| 0 <= i < ls.len() ==> (#[trigger] ls[i]).len() > 0,
    ensures
        scan(ls).0 == Seq::<GroupView>::empty(),
        scan(ls).1.list == items,
        scan(ls).1.text.len() > 0 <==> ls.len() > 0,
    decreases ls.len(),
{
    if ls.len() > 0 {
        let n = ls.len() - 1;
        assert forall|i: int| 0 <= i < n implies classify(#[trigger] ls.drop_last()[i]) == LineView::Entry(
            items.drop_last()[i],
        ) by {
            assert(ls.drop_last()[i] == ls[i]);
        }
        assert forall|i: int| 0 <= i < n implies (#[trigger] ls.drop_last()[i]).len() > 0 by {
            assert(ls.drop_last()[i] == ls[i]);
        }
        lemma_scan_entries(ls.drop_last(), items.drop_last());
        assert(classify(ls.last()) == LineView::Entry(items[n]));
        assert(items.drop_last().push(items[n]) =~= items);
    }
}

/// The text of an entry list has exactly one line per entry.
pub proof fn lemma_render_line_count(items: Seq<ItemView>, eol: Seq<char>)
    requires
        valid_eol(eol),
    ensures
        lines(render_lines(items, eol)).len() == items.len(),
{
    lemma_lines_render(items, eol);
}

/// Parsing the rendered text of entries with valid addresses and at least one
/// alias each gives back, in order, entries with the same addresses, aliases
/// and flags, whatever their comments; with valid comments too, the very same
/// entries.
pub proof fn lemma_render_parse(items: Seq<ItemView>, text: Seq<char>)
    requires
        forall|i: int| 0 <= i < items.len() ==> valid_fields(#[trigger] items[i]),
    ensures
        all_entries(parse(render(items, text))).len() == items.len(),
        forall|i: int|
            0 <= i < items.len() ==> same_fields(
                #[trigger] all_entries(parse(render(items, text)))[i],
                items[i],
            ),
        all_valid(items) ==> all_entries(parse(render(items, text))) == items,
{
    let eol = eol_of(text);
    lemma_lines_render(items, eol);
    let ls = lines(render(items, text));
    let back = Seq::new(items.len(), |i: int| classify(render_line(items[i], eol))->Entry_0);
    assert forall|i: int| 0 <= i < ls.len() implies classify(#[trigger] ls[i]) == LineView::Entry(
        back[i],
    ) by {
        lemma_classify_render(items[i], eol);
    }
    assert forall|i: int| 0 <= i < ls.len() implies (#[trigger] ls[i]).len() > 0 by {
        lemma_line_shape(items[i], eol);
    }
    lemma_scan_entries(ls, back);
    let gs = parse(render(items, text));
    if items.len() > 0 {
        assert(gs.len() == 1);
        assert(gs.drop_first() =~= Seq::<GroupView>::empty());
        assert(all_entries(gs.drop_first()) == Seq::<ItemView>::empty());
        assert(gs[0].list == back);
        assert(all_entries(gs) =~= back);
    } else {
        assert(gs.len() == 0);
        assert(all_entries(gs) =~= back);
    }
    assert forall|i: int| 0 <= i < items.len() implies same_fields(#[trigger] back[i], items[i]) by {
        lemma_classify_render(items[i], eol);
    }
    if all_valid(items) {
        assert forall|i: int| 0 <= i < items.len() implies #[trigger] back[i] == items[i] by {
            assert(valid_item(items[i]));
            lemma_classify_render(items[i], eol);
        }
        assert(back =~= items);
    }
}

/// A `\n` of `s` can only be its last character.
pub open spec fn one_line(s: Seq<char>) -> bool {
    forall|i: int| 0 <= i < s.len() - 1 ==> #[trigger] s[i] != '\n'
}

pub open spec fn all_valid(items: Seq<ItemView>) -> bool {
    forall|i: int| 0 <= i < items.len() ==> valid_item(#[trigger] items[i])
}

pub open spec fn groups_valid(gs: Seq<GroupView>) -> bool {
    forall|g: int| 0 <= g < gs.len() ==> all_valid(#[trigger] gs[g].list)
}

proof fn lemma_one_line_skip(s: Seq<char>, k: int)
    requires
        one_line(s),
        0 <= k <= s.len(),
    ensures
        one_line(s.skip(k)),
{
    assert forall|i: int| 0 <= i < s.skip(k).len() - 1 implies #[trigger] s.skip(k)[i] != '\n' by {
        assert(s.skip(k)[i] == s[i + k]);
    }
}

proof fn lemma_lines_one_line(s: Seq<char>, cur: Seq<char>)
    requires
        lacks(cur, '\n'),
    ensures
        forall|i: int| 0 <= i < lines_from(s, cur).len() ==> one_line(#[trigger] lines_from(s, cur)[i]),
    decreases s.len(),
{
    if s.len() == 0 {
        if cur.len() > 0 {
            assert(lines_from(s, cur) == seq![cur]);
            assert(one_line(cur));
        } else {
            assert(lines_from(s, cur) == Seq::<Seq<char>>::empty());
        }
    } else if s[0] == '\n' {
        lemma_lines_one_line(s.drop_first(), Seq::empty());
        let l = cur.push('\n');
        assert(one_line(l)) by {
            assert forall|i: int| 0 <= i < l.len() - 1 implies #[trigger] l[i] != '\n' by {
                assert(l[i] == cur[i]);
            }
        }
        let r = lines_from(s, cur);
        let t = lines_from(s.drop_first(), Seq::empty());
        assert(r == seq![l] + t);
        assert forall|i: int| 0 <= i < r.len() implies one_line(#[trigger] r[i]) by {
            if i > 0 {
                assert(r[i] == t[i - 1]);
            }
        }
    } else {
        let c = cur.push(s[0]);
        assert(lacks(c, '\n')) by {
            assert forall|i: int| 0 <= i < c.len() implies #[trigger] c[i] != '\n' by {
                if i < cur.len() {
                    assert(c[i] == cur[i]);
                }
            }
        }
        lemma_lines_one_line(s.drop_first(), c);
        assert(lines_from(s, cur) == lines_from(s.drop_first(), c));
    }
}

proof fn lemma_words_valid(s: Seq<char>, cur: Seq<char>)
    requires
        lacks(s, '#'),
        no_blank(cur),
        lacks(cur, '#'),
    ensures
        forall|i: int| 0 <= i < words_from(s, cur).len() ==> valid_word(#[trigger] words_from(s, cur)[i]),
    decreases s.len(),
{
    if s.len() == 0 {
        if cur.len() > 0 {
            assert(words_from(s, cur) == seq![cur]);
            assert(valid_word(seq![cur][0]));
        } else {
            assert(words_from(s, cur) == Seq::<Seq<char>>::empty());
        }
    } else if is_blank(s[0]) {
        assert(lacks(s.drop_first(), '#'));
        lemma_words_valid(s.drop_first(), Seq::empty());
        let r = words_from(s, cur);
        let t = words_from(s.drop_first(), Seq::empty());
        assert(r == flush(cur) + t);
        assert forall|i: int| 0 <= i < r.len() implies valid_word(#[trigger] r[i]) by {
            if i < flush(cur).len() {
                assert(r[i] == cur);
            } else {
                assert(r[i] == t[i - flush(cur).len()]);
            }
        }
    } else {
        let c = cur.push(s[0]);
        assert(s[0] != '#');
        assert(no_blank(c) && lacks(c, '#')) by {
            assert forall|i: int| 0 <= i < c.len() implies !is_blank(#[trigger] c[i]) && c[i] != '#' by {
                if i < cur.len() {
                    assert(c[i] == cur[i]);
                }
            }
        }
        assert(lacks(s.drop_first(), '#'));
        lemma_words_valid(s.drop_first(), c);
        assert(words_from(s, cur) == words_from(s.drop_first(), c));
    }
}

proof fn lemma_before_hash_lacks(s: Seq<char>)
    ensures
        lacks(before_hash(s), '#'),
    decreases s.len(),
{
    if s.len() > 0 && s[0] != '#' {
        lemma_before_hash_lacks(s.drop_first());
        let b = before_hash(s);
        assert forall|i: int| 0 <= i < b.len() implies #[trigger] b[i] != '#' by {
            if i > 0 {
                assert(b[i] == before_hash(s.drop_first())[i - 1]);
            }
        }
    }
}

proof fn lemma_after_hash_suffix(s: Seq<char>) -> (k: int)
    requires
        after_hash(s) is Some,
    ensures
        0 <= k <= s.len(),
        after_hash(s) == Some(s.skip(k)),
    decreases s.len(),
{
    if s[0] == '#' {
        assert(s.drop_first() =~= s.skip(1));
        1
    } else {
        let k = lemma_after_hash_suffix(s.drop_first());
        assert(s.drop_first().skip(k) =~= s.skip(k + 1));
        k + 1
    }
}

proof fn lemma_trim_start_at(s: Seq<char>) -> (k: int)
    ensures
        0 <= k <= s.len(),
        trim_start(s) == s.skip(k),
        k < s.len() ==> !is_blank(s[k]),
    decreases s.len(),
{
    if s.len() > 0 && is_blank(s[0]) {
        let k = lemma_trim_start_at(s.drop_first());
        assert(s.drop_first().skip(k) =~= s.skip(k + 1));
        k + 1
    } else {
        assert(s.skip(0) =~= s);
        0
    }
}

proof fn lemma_trim_end_at(s: Seq<char>) -> (k: int)
    ensures
        0 <= k <= s.len(),
        trim_end(s) == s.take(k),
        k > 0 ==> !is_blank(s[k - 1]),
    decreases s.len(),
{
    if s.len() > 0 && is_blank(s.last()) {
        let k = lemma_trim_end_at(s.drop_last());
        assert(s.drop_last().take(k) =~= s.take(k));
        k
    } else {
        assert(s.take(s.len() as int) =~= s);
        s.len() as int
    }
}

proof fn lemma_comment_valid(a: Seq<char>)
    requires
        one_line(a),
    ensures
        valid_comment(Some(trim_end(trim_start(a)))),
{
    let k1 = lemma_trim_start_at(a);
    let x = a.skip(k1);
    lemma_one_line_skip(a, k1);
    let k2 = lemma_trim_end_at(x);
    let c = x.take(k2);
    assert forall|i: int| 0 <= i < c.len() implies #[trigger] c[i] != '\n' by {
        assert(c[i] == x[i]);
        if i == x.len() - 1 {
            assert(!is_blank(x[k2 - 1]));
        }
    }
    if c.len() > 0 {
        assert(c[0] == a[k1]);
        assert(c.last() == x[k2 - 1]);
    }
}

/// An entry read from one line is valid.
proof fn lemma_classify_valid(line: Seq<char>)
    requires
        one_line(line),
        classify(line) is Entry,
    ensures
        valid_item(classify(line)->Entry_0),
{
    let it = classify(line)->Entry_0;
    let k0 = lemma_trim_start_at(line);
    let t = trim_start(line);
    let enabled = !(t.len() > 0 && t[0] == '#');
    let body = if enabled { t } else { t.drop_first() };
    let kb = if enabled { k0 } else { k0 + 1 };
    assert(body =~= line.skip(kb));
    lemma_one_line_skip(line, kb);
    let data = before_hash(body);
    lemma_before_hash_lacks(body);
    lemma_words_valid(data, Seq::empty());
    let fields = words(data);
    assert forall|i: int| 0 <= i < it.aliases.len() implies valid_word(#[trigger] it.aliases[i]) by {
        assert(it.aliases[i] == fields[i + 1]);
    }
    match after_hash(body) {
        Some(a) => {
            let k = lemma_after_hash_suffix(body);
            lemma_one_line_skip(body, k);
            lemma_comment_valid(a);
        },
        None => {},
    }
}

proof fn lemma_scan_valid(ls: Seq<Seq<char>>)
    requires
        forall|i: int| 0 <= i < ls.len() ==> one_line(#[trigger] ls[i]),
    ensures
        groups_valid(scan(ls).0),
        all_valid(scan(ls).1.list),
    decreases ls.len(),
{
    if ls.len() > 0 {
        let prev = ls.drop_last();
        assert forall|i: int| 0 <= i < prev.len() implies one_line(#[trigger] prev[i]) by {
            assert(prev[i] == ls[i]);
        }
        lemma_scan_valid(prev);
        let st = scan(prev);
        let line = ls.last();
        match classify(line) {
            LineView::Header(_) => {
                let gs = finish(st);
                assert forall|g: int| 0 <= g < gs.len() implies all_valid(#[trigger] gs[g].list) by {
                    if g < st.0.len() {
                        assert(gs[g] == st.0[g]);
                    }
                }
                assert(scan(ls).1.list =~= Seq::<ItemView>::empty());
            },
            LineView::Entry(it) => {
                lemma_classify_valid(line);
                let l = st.1.list.push(it);
                assert forall|i: int| 0 <= i < l.len() implies valid_item(#[trigger] l[i]) by {
                    if i < st.1.list.len() {
                        assert(l[i] == st.1.list[i]);
                    }
                }
            },
            LineView::Other => {},
        }
    }
}

/// Every entry that parsing yields is valid.
proof fn lemma_parse_valid(text: Seq<char>)
    ensures
        groups_valid(parse(text)),
{
    lemma_lines_one_line(text, Seq::empty());
    lemma_scan_valid(lines(text));
    let st = scan(lines(text));
    let gs = parse(text);
    assert forall|g: int| 0 <= g < gs.len() implies all_valid(#[trigger] gs[g].list) by {
        if g < st.0.len() {
            assert(gs[g] == st.0[g]);
        }
    }
}

proof fn lemma_all_entries_valid(gs: Seq<GroupView>)
    requires
        groups_valid(gs),
    ensures
        all_valid(all_entries(gs)),
    decreases gs.len(),
{
    if gs.len() > 0 {
        let rest = gs.drop_first();
        assert forall|g: int| 0 <= g < rest.len() implies all_valid(#[trigger] rest[g].list) by {
            assert(rest[g] == gs[g + 1]);
        }
        lemma_all_entries_valid(rest);
        let a = all_entries(gs);
        let l = gs[0].list;
        assert(all_valid(l));
        assert forall|i: int| 0 <= i < a.len() implies valid_item(#[trigger] a[i]) by {
            if i < l.len() {
                assert(a[i] == l[i]);
            } else {
                assert(a[i] == all_entries(rest)[i - l.len()]);
            }
        }
    }
}

/// Rendering a group's entries against the group's own text and parsing the
/// result gives back the same entries: the same addresses, aliases, enabled
/// flags and comments.
pub proof fn lemma_group_round_trip(text: Seq<char>, g: int)
    requires
        0 <= g < parse(text).len(),
    ensures
        all_entries(parse(render(parse(text)[g].list, parse(text)[g].text))) == parse(text)[g].list,
{
    lemma_parse_valid(text);
    assert(all_valid(parse(text)[g].list));
    lemma_render_parse(parse(text)[g].list, parse(text)[g].text);
}

/// The rendered text of valid entries uses the line ending it was written with.
proof fn lemma_eol_kept(items: Seq<ItemView>, eol: Seq<char>)
    requires
        all_valid(items),
        items.len() > 0,
        valid_eol(eol),
    ensures
        eol_of(render_lines(items, eol)) == eol,
{
    let it = items[0];
    assert(valid_item(it));
    lemma_fields_one_line(it);
    lemma_line_shape(it, eol);
    lemma_ip_chars(it.ip);
    lemma_join_chars(it.aliases);
    let line = render_line(it, eol);
    let x = line.drop_last();
    let rest = render_lines(items.drop_first(), eol);
    let t = render_lines(items, eol);
    assert(t =~= x + seq!['\n'] + rest);
    let n = x.len() as int;
    assert(t[n] == '\n');
    assert forall|j: int| 0 <= j < n implies t[j] != '\n' by {
        assert(t[j] == x[j]);
    }
    assert(first_newline(t, n));
    assert forall|k: int| #[trigger] first_newline(t, k) implies k == n by {
        if k < n {
            assert(t[k] == x[k]);
        }
    }
    let m = disabled_mark(it.enabled);
    let j = join_aliases(it.aliases);
    let c = comment_text(it.comment);
    assert(n > 0) by {
        assert(x =~= m + it.ip + j + c + eol.drop_last());
    }
    assert(t[n - 1] == x[n - 1]);
    if eol == seq!['\r', '\n'] {
        assert(x[n - 1] == line[line.len() - 2]);
        assert(uses_crlf(t));
    } else {
        assert(x =~= m + it.ip + j + c);
        match it.comment {
            Some(cm) => {
                lemma_first_line(cm);
                if cm.len() > 0 {
                    assert(x[n - 1] == cm.last());
                } else {
                    assert(x[n - 1] == ' ');
                }
            },
            None => {
                assert(x =~= (m + it.ip) + j);
                assert(j.len() > 0);
                assert(x[n - 1] == j[j.len() - 1]);
            },
        }
        assert(x[n - 1] != '\r');
        assert(!uses_crlf(t));
    }
}

/// Rendering the entries of a text against that text, and then doing the same
/// to the result, gives the result again.
pub proof fn lemma_render_idempotent(text: Seq<char>)
    ensures
        ({
            let once = render(all_entries(parse(text)), text);
            render(all_entries(parse(once)), once) == once
        }),
{
    lemma_parse_valid(text);
    lemma_all_entries_valid(parse(text));
    let items = all_entries(parse(text));
    lemma_render_parse(items, text);
    if items.len() > 0 {
        lemma_eol_kept(items, eol_of(text));
    }
}

pub open spec fn with_enabled(it: ItemView, enabled: bool) -> ItemView {
    ItemView { ip: it.ip, aliases: it.aliases, enabled, comment: it.comment }
}

/// Disabling an entry that fits on one line puts `# ` before its line and
/// leaves the rest of the line as it was; a valid entry with its flag flipped,
/// written alone, reads back as exactly that one entry: the flipped flag and
/// every other field unchanged.
pub proof fn lemma_toggle(it: ItemView, eol: Seq<char>, text: Seq<char>)
    ensures
        fields_one_line(it) ==> render_line(with_enabled(it, false), eol) == seq!['#', ' ']
            + render_line(with_enabled(it, true), eol),
        valid_item(it) && valid_eol(eol) ==> classify(render_line(with_enabled(it, !it.enabled), eol))
            == LineView::Entry(with_enabled(it, !it.enabled)),
        valid_item(it) ==> all_entries(parse(render(seq![with_enabled(it, !it.enabled)], text)))
            == seq![with_enabled(it, !it.enabled)],
{
    let t = with_enabled(it, !it.enabled);
    assert(fields_one_line(with_enabled(it, false)) == fields_one_line(it));
    assert(fields_one_line(with_enabled(it, true)) == fields_one_line(it));
    if fields_one_line(it) {
        assert(render_line(with_enabled(it, false), eol) =~= seq!['#', ' '] + render_line(
            with_enabled(it, true),
            eol,
        ));
    }
    if valid_item(it) {
        assert(valid_item(t));
        if valid_eol(eol) {
            lemma_classify_render(t, eol);
        }
        assert(all_valid(seq![t]));
        lemma_render_parse(seq![t], text);
    }
}

/// Rendering a group's entries against the group's own text, and then doing the
/// same to the entries read back from the result, gives the result again.
pub proof fn lemma_group_render_idempotent(text: Seq<char>, g: int)
    requires
        0 <= g < parse(text).len(),
    ensures
        ({
            let grp = parse(text)[g];
            let once = render(grp.list, grp.text);
            render(all_entries(parse(once)), once) == once
        }),
{
    lemma_parse_valid(text);
    let grp = parse(text)[g];
    assert(all_valid(grp.list));
    lemma_render_parse(grp.list, grp.text);
    if grp.list.len() > 0 {
        lemma_eol_kept(grp.list, eol_of(grp.text));
    }

}

/// The texts of the groups, one after another.
pub open spec fn joined_texts(gs: Seq<GroupView>) -> Seq<char>
    decreases gs.len(),
{
    if gs.len() == 0 {
        Seq::empty()
    } else {
        gs[0].text + joined_texts(gs.drop_first())
    }
}

/// The lines, one after another.
pub open spec fn joined_lines(ls: Seq<Seq<char>>) -> Seq<char>
    decreases ls.len(),
{
    if ls.len() == 0 {
        Seq::empty()
    } else {
        ls[0] + joined_lines(ls.drop_first())
    }
}

proof fn lemma_joined_texts_push(gs: Seq<GroupView>, g: GroupView)
    ensures
        joined_texts(gs.push(g)) == joined_texts(gs) + g.text,
    decreases gs.len(),
{
    if gs.len() == 0 {
        assert(gs.push(g).drop_first() =~= Seq::<GroupView>::empty());
        assert(gs.push(g)[0] == g);
        assert(joined_texts(gs.push(g).drop_first()) == Seq::<char>::empty());
        assert(joined_texts(gs.push(g)) =~= joined_texts(gs) + g.text);
    } else {
        lemma_joined_texts_push(gs.drop_first(), g);
        assert(gs.push(g).drop_first() =~= gs.drop_first().push(g));
        assert(gs.push(g)[0] == gs[0]);
        assert(joined_texts(gs.push(g)) =~= joined_texts(gs) + g.text);
    }
}

proof fn lemma_joined_lines_push(ls: Seq<Seq<char>>, l: Seq<char>)
    ensures
        joined_lines(ls.push(l)) == joined_lines(ls) + l,
    decreases ls.len(),
{
    if ls.len() == 0 {
        assert(ls.push(l).drop_first() =~= Seq::<Seq<char>>::empty());
        assert(ls.push(l)[0] == l);
        assert(joined_lines(ls.push(l).drop_first()) == Seq::<char>::empty());
        assert(joined_lines(ls.push(l)) =~= joined_lines(ls) + l);
    } else {
        lemma_joined_lines_push(ls.drop_first(), l);
        assert(ls.push(l).drop_first() =~= ls.drop_first().push(l));
        assert(ls.push(l)[0] == ls[0]);
        assert(joined_lines(ls.push(l)) =~= joined_lines(ls) + l);
    }
}

proof fn lemma_lines_join(s: Seq<char>, cur: Seq<char>)
    ensures
        joined_lines(lines_from(s, cur)) == cur + s,
    decreases s.len(),
{
    if s.len() == 0 {
        if cur.len() > 0 {
            assert(seq![cur].drop_first() =~= Seq::<Seq<char>>::empty());
            assert(joined_lines(seq![cur].drop_first()) == Seq::<char>::empty());
        }
        assert(joined_lines(lines_from(s, cur)) =~= cur + s);
    } else if s[0] == '\n' {
        let t = lines_from(s.drop_first(), Seq::empty());
        lemma_lines_join(s.drop_first(), Seq::empty());
        let r = seq![cur.push('\n')] + t;
        assert(r.drop_first() =~= t);
        assert(r[0] == cur.push('\n'));
        assert(joined_lines(r) =~= cur + s);
    } else {
        lemma_lines_join(s.drop_first(), cur.push(s[0]));
        assert(cur.push(s[0]) + s.drop_first() =~= cur + s);
    }
}

proof fn lemma_scan_texts(ls: Seq<Seq<char>>)
    ensures
        joined_texts(scan(ls).0) + scan(ls).1.text == joined_lines(ls),
    decreases ls.len(),
{
    if ls.len() == 0 {
        assert(joined_texts(scan(ls).0) + scan(ls).1.text =~= joined_lines(ls));
    } else {
        let prev = ls.drop_last();
        lemma_scan_texts(prev);
        lemma_joined_lines_push(prev, ls.last());
        assert(prev.push(ls.last()) =~= ls);
        let st = scan(prev);
        match classify(ls.last()) {
            LineView::Header(_) => {
                if st.1.text.len() > 0 {
                    lemma_joined_texts_push(st.0, st.1);
                } else {
                    assert(joined_texts(st.0) + st.1.text =~= joined_texts(st.0));
                }
            },
            _ => {
                assert(joined_texts(st.0) + (st.1.text + ls.last()) =~= (joined_texts(st.0)
                    + st.1.text) + ls.last());
            },
        }
    }
}

/// The texts of the groups, one after another, are the parsed text itself.
pub proof fn lemma_parse_keeps_text(text: Seq<char>)
    ensures
        joined_texts(parse(text)) == text,
{
    lemma_lines_join(text, Seq::empty());
    assert(Seq::<char>::empty() + text =~= text);
    let ls = lines(text);
    lemma_scan_texts(ls);
    let st = scan(ls);
    if st.1.text.len() > 0 {
        lemma_joined_texts_push(st.0, st.1);
    } else {
        assert(joined_texts(st.0) + st.1.text =~= joined_texts(st.0));
    }
}

/// Pieces put back together with the separator between them.
pub open spec fn rejoin(ps: Seq<Seq<char>>, sep: char) -> Seq<char>
    decreases ps.len(),
{
    if ps.len() == 0 {
        Seq::empty()
    } else if ps.len() == 1 {
        ps[0]
    } else {
        ps[0] + seq![sep] + rejoin(ps.drop_first(), sep)
    }
}

proof fn lemma_pieces_rejoin(s: Seq<char>, sep: char, cur: Seq<char>)
    ensures
        pieces_from(s, sep, cur).len() >= 1,
        rejoin(pieces_from(s, sep, cur), sep) == cur + s,
    decreases s.len(),
{
    if s.len() == 0 {
        assert(cur + s =~= cur);
    } else if s[0] == sep {
        lemma_pieces_rejoin(s.drop_first(), sep, Seq::empty());
        let t = pieces_from(s.drop_first(), sep, Seq::empty());
        let r = seq![cur] + t;
        assert(r.drop_first() =~= t);
        assert(r[0] == cur);
        assert(rejoin(r, sep) == cur + seq![sep] + rejoin(t, sep));
        assert(cur + seq![sep] + (Seq::<char>::empty() + s.drop_first()) =~= cur + s);
    } else {
        lemma_pieces_rejoin(s.drop_first(), sep, cur.push(s[0]));
        assert(cur.push(s[0]) + s.drop_first() =~= cur + s);
    }
}

/// A dotted address holds only digits and dots.
proof fn lemma_ipv4_chars(s: Seq<char>)
    requires
        is_ipv4(s),
    ensures
        forall|i: int| 0 <= i < s.len() ==> is_digit(#[trigger] s[i]) || s[i] == '.',
{
    let ps = pieces(s, '.');
    lemma_pieces_rejoin(s, '.', Seq::empty());
    assert(Seq::<char>::empty() + s =~= s);
    let d = seq!['.'];
    assert(is_octet(ps[0]) && is_octet(ps[1]) && is_octet(ps[2]) && is_octet(ps[3]));
    let r3 = ps.drop_first().drop_first().drop_first();
    assert(r3 =~= seq![ps[3]]);
    assert(rejoin(r3, '.') == ps[3]);
    let after_first = ps.drop_first();
    let after_second = after_first.drop_first();
    assert(after_second[0] == ps[2] && after_second.drop_first() == r3);
    assert(rejoin(after_second, '.') == ps[2] + d + ps[3]);
    assert(after_first[0] == ps[1] && after_first.drop_first() == after_second);
    assert(rejoin(after_first, '.') == ps[1] + d + rejoin(after_second, '.'));
    assert(rejoin(ps, '.') == ps[0] + d + rejoin(after_first, '.'));
    assert(s =~= ps[0] + d + (ps[1] + d + (ps[2] + d + ps[3])));
    assert forall|i: int| 0 <= i < s.len() implies is_digit(#[trigger] s[i]) || s[i] == '.' by {
        let a = ps[0].len();
        let b = a + 1 + ps[1].len();
        let c = b + 1 + ps[2].len();
        if i < a {
            assert(s[i] == ps[0][i]);
        } else if i == a || i == b || i == c {
        } else if i < b {
            assert(s[i] == ps[1][i - a - 1]);
        } else if i < c {
            assert(s[i] == ps[2][i - b - 1]);
        } else {
            assert(s[i] == ps[3][i - c - 1]);
        }
    }
}

/// Two separators in a row leave an empty piece.
proof fn lemma_empty_piece(s: Seq<char>, sep: char, cur: Seq<char>, q: int) -> (i: int)
    requires
        0 <= q,
        q + 1 < s.len(),
        s[q] == sep,
        s[q + 1] == sep,
    ensures
        0 <= i < pieces_from(s, sep, cur).len(),
        pieces_from(s, sep, cur)[i].len() == 0,
    decreases s.len(),
{
    let d = s.drop_first();
    if q == 0 {
        lemma_pieces_rejoin(d.drop_first(), sep, Seq::empty());
        assert(d[0] == sep);
        assert(pieces_from(d, sep, Seq::empty()) == seq![Seq::<char>::empty()] + pieces_from(
            d.drop_first(),
            sep,
            Seq::empty(),
        ));
        1
    } else if s[0] == sep {
        let i = lemma_empty_piece(d, sep, Seq::empty(), q - 1);
        i + 1
    } else {
        lemma_empty_piece(d, sep, cur.push(s[0]), q - 1)
    }
}

/// A text with `::` in two places, apart from each other, is no address: the
/// `::` shorthand stands at most once.
pub proof fn lemma_two_double_colons(s: Seq<char>, k1: int, k2: int)
    requires
        double_colon_at(s, k1),
        double_colon_at(s, k2),
        k1 + 2 <= k2,
    ensures
        !is_ip_spec(s),
{
    if is_ipv4(s) {
        lemma_ipv4_chars(s);
        assert(is_digit(s[k1]) || s[k1] == '.');
    }
    let e = lemma_empty_piece(s, ':', Seq::empty(), k1);
    assert(!is_hextet(pieces(s, ':')[e]));
    assert forall|k: int| #[trigger] first_double_colon(s, k) implies !crate::ip::side_ok(
        s.skip(k + 2),
    ) by {
        assert(!(k1 < k)) by {
            if k1 < k {
                assert(!double_colon_at(s, k1));
            }
        }
        let r = s.skip(k + 2);
        let q = k2 - k - 2;
        assert(r[q] == s[k2] && r[q + 1] == s[k2 + 1]);
        let i = lemma_empty_piece(r, ':', Seq::empty(), q);
        assert(!is_hextet(pieces(r, ':')[i]));
    }
    assert(!is_ipv6(s));
}

proof fn lemma_pieces_single(s: Seq<char>, sep: char, cur: Seq<char>)
    requires
        lacks(s, sep),
    ensures
        pieces_from(s, sep, cur).len() == 1,
    decreases s.len(),
{
    if s.len() > 0 {
        assert(s[0] != sep);
        assert(lacks(s.drop_first(), sep));
        lemma_pieces_single(s.drop_first(), sep, cur.push(s[0]));
    }
}

/// More than eight colon-separated groups, with no `::` among them, are no
/// address.
pub proof fn lemma_colon_groups_count(s: Seq<char>)
    requires
        forall|k: int| !#[trigger] double_colon_at(s, k),
        pieces(s, ':').len() > 8,
    ensures
        !is_ip_spec(s),
{
    if is_ipv4(s) {
        lemma_ipv4_chars(s);
        assert(lacks(s, ':')) by {
            assert forall|i: int| 0 <= i < s.len() implies #[trigger] s[i] != ':' by {
                assert(is_digit(s[i]) || s[i] == '.');
            }
        }
        lemma_pieces_single(s, ':', Seq::empty());
    }
    assert forall|k: int| !#[trigger] first_double_colon(s, k) by {
        assert(!double_colon_at(s, k));
    }
}

} // verus!
