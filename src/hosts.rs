use vstd::prelude::*;

use crate::command::{GroupDTO, GroupView};
use crate::ip::{ip_chars, is_ip_spec};
use crate::laws::lemma_render_line_count;
use crate::text::{
    blank, chars_of, flush, is_blank, lacks, push_char, same_chars, slice, split_words, string_of, strings_of, views_of,
    words,
};

verus! {

/// One mapping of a hosts file: an address, its aliases, whether the line is
/// active (a disabled entry is written commented out), and an optional comment.
#[derive(Clone, Debug, PartialEq, Eq)]
pub struct Item {
    pub ip: String,
    pub aliases: Vec<String>,
    pub enabled: bool,
    pub comment: Option<String>,
}

pub struct ItemView {
    pub ip: Seq<char>,
    pub aliases: Seq<Seq<char>>,
    pub enabled: bool,
    pub comment: Option<Seq<char>>,
}

pub open spec fn opt_view(c: Option<String>) -> Option<Seq<char>> {
    match c {
        Some(s) => Some(s@),
        None => None,
    }
}

impl View for Item {
    type V = ItemView;

    open spec fn view(&self) -> ItemView {
        ItemView {
            ip: self.ip@,
            aliases: strings_of(self.aliases@),
            enabled: self.enabled,
            comment: opt_view(self.comment),
        }
    }
}

pub open spec fn items_view(v: Seq<Item>) -> Seq<ItemView> {
    v.map_values(|it: Item| it@)
}

/// What one line of a hosts file is.
pub enum LineView {
    Header(Seq<char>),
    Entry(ItemView),
    Other,
}

/// A line as the parser sees it: a group header with its name, an entry, or
/// anything else (blank lines, free comments, malformed lines).
pub enum Line {
    Header(String),
    Entry(Item),
    Other,
}

impl View for Line {
    type V = LineView;

    open spec fn view(&self) -> LineView {
        match self {
            Line::Header(n) => LineView::Header(n@),
            Line::Entry(it) => LineView::Entry(it@),
            Line::Other => LineView::Other,
        }
    }
}

/// `s` without its leading blanks.
pub open spec fn trim_start(s: Seq<char>) -> Seq<char>
    decreases s.len(),
{
    if s.len() > 0 && is_blank(s[0]) {
        trim_start(s.drop_first())
    } else {
        s
    }
}

/// `s` without its trailing blanks.
pub open spec fn trim_end(s: Seq<char>) -> Seq<char>
    decreases s.len(),
{
    if s.len() > 0 && is_blank(s.last()) {
        trim_end(s.drop_last())
    } else {
        s
    }
}

/// What comes before the first `#` of `s` (all of `s` if it has none).
pub open spec fn before_hash(s: Seq<char>) -> Seq<char>
    decreases s.len(),
{
    if s.len() == 0 || s[0] == '#' {
        Seq::empty()
    } else {
        seq![s[0]] + before_hash(s.drop_first())
    }
}

/// What comes after the first `#` of `s`, if it has one.
pub open spec fn after_hash(s: Seq<char>) -> Option<Seq<char>>
    decreases s.len(),
{
    if s.len() == 0 {
        None
    } else if s[0] == '#' {
        Some(s.drop_first())
    } else {
        after_hash(s.drop_first())
    }
}

pub open spec fn word_hash() -> Seq<char> {
    seq!['#']
}

pub open spec fn word_dashes() -> Seq<char> {
    seq!['-', '-', '-']
}

pub open spec fn word_group() -> Seq<char> {
    seq!['G', 'r', 'o', 'u', 'p', ':']
}

/// The words of a header line: `# --- Group: <name> ---`.
pub open spec fn is_header_words(w: Seq<Seq<char>>) -> bool {
    &&& w.len() == 5
    &&& w[0] == word_hash()
    &&& w[1] == word_dashes()
    &&& w[2] == word_group()
    &&& w[4] == word_dashes()
}

/// The comment of an entry line: the text after its `#`, trimmed.
pub open spec fn comment_of(body: Seq<char>) -> Option<Seq<char>> {
    match after_hash(body) {
        Some(c) => Some(trim_end(trim_start(c))),
        None => None,
    }
}

/// How a line of a hosts file is read. A header names a group. Otherwise the
/// line, with one leading `#` taken off (which marks the entry disabled), is an
/// entry when the words before its first remaining `#` are an address followed
/// by at least one alias; what follows that `#` is the entry's comment.
pub open spec fn classify(line: Seq<char>) -> LineView {
    let w = words(line);
    if is_header_words(w) {
        LineView::Header(w[3])
    } else {
        let t = trim_start(line);
        let enabled = !(t.len() > 0 && t[0] == '#');
        let body = if enabled {
            t
        } else {
            t.drop_first()
        };
        let fields = words(before_hash(body));
        if fields.len() >= 2 && is_ip_spec(fields[0]) {
            LineView::Entry(
                ItemView {
                    ip: fields[0],
                    aliases: fields.skip(1),
                    enabled,
                    comment: comment_of(body),
                },
            )
        } else {
            LineView::Other
        }
    }
}

/// Index of the first character of `v` at or after `lo` that is not blank.
fn skip_blanks(v: &Vec<char>, lo: usize) -> (k: usize)
    requires
        lo <= v.len(),
    ensures
        lo <= k <= v.len(),
        trim_start(v@.skip(lo as int)) == v@.skip(k as int),
{
    let mut i = lo;
    while i < v.len() && blank(v[i])
        invariant
            lo <= i <= v.len(),
            trim_start(v@.skip(lo as int)) == trim_start(v@.skip(i as int)),
        decreases v.len() - i,
    {
        assert(v@.skip(i as int).drop_first() =~= v@.skip(i + 1));
        i = i + 1;
    }
    i
}

/// End of `v[lo..hi]` once its trailing blanks are dropped.
fn trailing_blanks(v: &Vec<char>, lo: usize, hi: usize) -> (k: usize)
    requires
        lo <= hi <= v.len(),
    ensures
        lo <= k <= hi,
        trim_end(v@.subrange(lo as int, hi as int)) == v@.subrange(lo as int, k as int),
{
    let mut j = hi;
    while j > lo && blank(v[j - 1])
        invariant
            lo <= j <= hi <= v.len(),
            trim_end(v@.subrange(lo as int, hi as int)) == trim_end(
                v@.subrange(lo as int, j as int),
            ),
        decreases j,
    {
        assert(v@.subrange(lo as int, j as int).drop_last() =~= v@.subrange(lo as int, j - 1));
        j = j - 1;
    }
    j
}

/// Index of the first `#` of `v` at or after `lo` (the length if none).
fn find_hash(v: &Vec<char>, lo: usize) -> (h: usize)
    requires
        lo <= v.len(),
    ensures
        lo <= h <= v.len(),
        before_hash(v@.skip(lo as int)) == v@.subrange(lo as int, h as int),
        after_hash(v@.skip(lo as int)) == (if h < v.len() {
            Some(v@.skip(h + 1))
        } else {
            None
        }),
{
    let mut i = lo;
    assert(v@.subrange(lo as int, lo as int) + before_hash(v@.skip(lo as int)) =~= before_hash(
        v@.skip(lo as int),
    ));
    while i < v.len() && v[i] != '#'
        invariant
            lo <= i <= v.len(),
            before_hash(v@.skip(lo as int)) == v@.subrange(lo as int, i as int) + before_hash(
                v@.skip(i as int),
            ),
            after_hash(v@.skip(lo as int)) == after_hash(v@.skip(i as int)),
        decreases v.len() - i,
    {
        let ghost rest = v@.skip(i as int);
        assert(rest.drop_first() =~= v@.skip(i + 1));
        assert(v@.subrange(lo as int, i + 1) =~= v@.subrange(lo as int, i as int) + seq![v@[i as int]]);
        assert(v@.subrange(lo as int, i + 1) + before_hash(v@.skip(i + 1)) =~= v@.subrange(
            lo as int,
            i as int,
        ) + before_hash(rest));
        i = i + 1;
    }
    if i < v.len() {
        assert(v@.skip(i as int).drop_first() =~= v@.skip(i + 1));
    }
    assert(v@.subrange(lo as int, i as int) + before_hash(v@.skip(i as int)) =~= v@.subrange(
        lo as int,
        i as int,
    ));
    i
}

/// Reads one line of a hosts file.
pub fn classify_line(line: &Vec<char>) -> (r: Line)
    ensures
        r@ == classify(line@),
{
    let w = split_words(line);
    proof {
        assert(words(line@).len() == w@.len());
    }
    if w.len() == 5 {
        let hash_w = vec!['#'];
        let dashes = vec!['-', '-', '-'];
        let group_w = vec!['G', 'r', 'o', 'u', 'p', ':'];
        assert(hash_w@ =~= word_hash());
        assert(dashes@ =~= word_dashes());
        assert(group_w@ =~= word_group());
        assert(views_of(w@)[0] == w@[0]@);
        assert(views_of(w@)[1] == w@[1]@);
        assert(views_of(w@)[2] == w@[2]@);
        assert(views_of(w@)[3] == w@[3]@);
        assert(views_of(w@)[4] == w@[4]@);
        if same_chars(&w[0], &hash_w) && same_chars(&w[1], &dashes) && same_chars(&w[2], &group_w)
            && same_chars(&w[4], &dashes) {
            return Line::Header(string_of(&w[3]));
        }
    }
    let t = skip_blanks(line, 0);
    assert(line@.skip(0) =~= line@);
    let enabled = !(t < line.len() && line[t] == '#');
    let b = if enabled {
        t
    } else {
        t + 1
    };
    if !enabled {
        assert(line@.skip(t as int).drop_first() =~= line@.skip(t + 1));
    }
    let h = find_hash(line, b);
    let data = slice(line, b, h);
    let fields = split_words(&data);
    assert(views_of(fields@).len() == fields@.len());
    if fields.len() < 2 {
        return Line::Other;
    }
    assert(views_of(fields@)[0] == fields@[0]@);
    if !ip_chars(&fields[0]) {
        return Line::Other;
    }
    let ip = string_of(&fields[0]);
    let mut aliases: Vec<String> = Vec::new();
    let mut i: usize = 1;
    while i < fields.len()
        invariant
            1 <= i <= fields.len(),
            strings_of(aliases@) == views_of(fields@).subrange(1, i as int),
        decreases fields.len() - i,
    {
        let a = string_of(&fields[i]);
        let ghost old_a = aliases@;
        aliases.push(a);
        assert(strings_of(aliases@) =~= strings_of(old_a).push(a@));
        assert(views_of(fields@)[i as int] == fields@[i as int]@);
        assert(views_of(fields@).subrange(1, i + 1) =~= views_of(fields@).subrange(1, i as int).push(
            fields@[i as int]@,
        ));
        i = i + 1;
    }
    assert(views_of(fields@).subrange(1, fields.len() as int) =~= views_of(fields@).skip(1));
    let comment = if h < line.len() {
        let c0 = skip_blanks(line, h + 1);
        let c1 = trailing_blanks(line, c0, line.len());
        assert(line@.skip(c0 as int) =~= line@.subrange(c0 as int, line.len() as int));
        Some(string_of(&slice(line, c0, c1)))
    } else {
        None
    };
    Line::Entry(Item { ip, aliases, enabled, comment })
}

/// The lines of `s`, the first prefixed by `cur`; each keeps its `\n`.
pub open spec fn lines_from(s: Seq<char>, cur: Seq<char>) -> Seq<Seq<char>>
    decreases s.len(),
{
    if s.len() == 0 {
        flush(cur)
    } else if s[0] == '\n' {
        seq![cur.push('\n')] + lines_from(s.drop_first(), Seq::empty())
    } else {
        lines_from(s.drop_first(), cur.push(s[0]))
    }
}

/// The lines of `s`, each with its `\n` (the last may have none). Their
/// concatenation is `s`.
pub open spec fn lines(s: Seq<char>) -> Seq<Seq<char>> {
    lines_from(s, Seq::empty())
}

pub open spec fn default_name() -> Seq<char> {
    seq!['d', 'e', 'f', 'a', 'u', 'l', 't']
}

pub open spec fn empty_group(name: Seq<char>, text: Seq<char>) -> GroupView {
    GroupView { name, text, list: Seq::empty() }
}

/// The groups closed so far and the group being read.
pub type ScanState = (Seq<GroupView>, GroupView);

/// Reads one more line: a header closes the current group (kept if it holds any
/// text) and opens a new one; any other line joins the current group's text, and
/// an entry line also its list.
pub open spec fn step(st: ScanState, line: Seq<char>) -> ScanState {
    match classify(line) {
        LineView::Header(name) => (finish(st), empty_group(name, line)),
        LineView::Entry(it) => (
            st.0,
            GroupView { name: st.1.name, text: st.1.text + line, list: st.1.list.push(it) },
        ),
        LineView::Other => (st.0, GroupView { name: st.1.name, text: st.1.text + line, list: st.1.list }),
    }
}

/// The state after reading the lines `ls` in order, from an empty default group.
pub open spec fn scan(ls: Seq<Seq<char>>) -> ScanState
    decreases ls.len(),
{
    if ls.len() == 0 {
        (Seq::empty(), empty_group(default_name(), Seq::empty()))
    } else {
        step(scan(ls.drop_last()), ls.last())
    }
}

/// The closed groups, and the current one if it holds any text.
pub open spec fn finish(st: ScanState) -> Seq<GroupView> {
    if st.1.text.len() > 0 {
        st.0.push(st.1)
    } else {
        st.0
    }
}

/// The groups of a hosts file's text.
pub open spec fn parse(text: Seq<char>) -> Seq<GroupView> {
    finish(scan(lines(text)))
}

pub open spec fn groups_view(v: Seq<GroupDTO>) -> Seq<GroupView> {
    v.map_values(|g: GroupDTO| g@)
}

/// Feeds one line to the group being read.
fn feed(groups: &mut Vec<GroupDTO>, cur: GroupDTO, line: &Vec<char>) -> (r: GroupDTO)
    ensures
        (groups_view(final(groups)@), r@) == step((groups_view(old(groups)@), cur@), line@),
{
    let text = string_of(line);
    let ghost st = (groups_view(groups@), cur@);
    let kind = classify_line(line);
    match kind {
        Line::Header(name) => {
            if !cur.text.as_str().is_empty() {
                let ghost g = groups@;
                groups.push(cur);
                assert(groups_view(groups@) =~= groups_view(g).push(cur@));
            }
            let r = GroupDTO { name, text, list: Vec::new() };
            assert(items_view(r.list@) =~= Seq::<ItemView>::empty());
            assert(r@ == step(st, line@).1);
            r
        },
        Line::Entry(it) => {
            let mut cur = cur;
            let ghost l = cur.list@;
            cur.list.push(it);
            assert(items_view(cur.list@) =~= items_view(l).push(it@));
            cur.text.append(text.as_str());
            assert(cur@ == step(st, line@).1);
            cur
        },
        Line::Other => {
            let mut cur = cur;
            cur.text.append(text.as_str());
            assert(cur@ == step(st, line@).1);
            cur
        },
    }
}

/// Splits hosts-file text into its groups.
pub fn text_to_groups(text: &str) -> (r: Vec<GroupDTO>)
    ensures
        groups_view(r@) == parse(text@),
{
    let v = chars_of(text);
    let mut groups: Vec<GroupDTO> = Vec::new();
    let default_chars = vec!['d', 'e', 'f', 'a', 'u', 'l', 't'];
    assert(default_chars@ =~= default_name());
    let mut cur = GroupDTO { name: string_of(&default_chars), text: String::new(), list: Vec::new() };
    let mut line: Vec<char> = Vec::new();
    let ghost mut done: Seq<Seq<char>> = Seq::empty();
    let mut i: usize = 0;
    assert(v@.skip(0) =~= v@);
    assert(done + lines(v@) =~= lines(v@));
    assert(items_view(cur.list@) =~= Seq::<ItemView>::empty());
    assert(groups_view(groups@) =~= Seq::<GroupView>::empty());
    while i < v.len()
        invariant
            i <= v.len(),
            v@ == text@,
            lines(v@) == done + lines_from(v@.skip(i as int), line@),
            (groups_view(groups@), cur@) == scan(done),
        decreases v.len() - i,
    {
        let c = v[i];
        let ghost rest = v@.skip(i as int);
        assert(rest.drop_first() =~= v@.skip(i + 1));
        line.push(c);
        if c == '\n' {
            let ghost tail = lines_from(v@.skip(i + 1), Seq::empty());
            assert(lines(v@) =~= done.push(line@) + tail);
            cur = feed(&mut groups, cur, &line);
            proof {
                assert(done.push(line@).drop_last() =~= done);
                done = done.push(line@);
            }
            line = Vec::new();
            assert(line@ =~= Seq::<char>::empty());
        }
        i = i + 1;
    }
    if line.len() > 0 {
        assert(lines(v@) =~= done.push(line@));
        cur = feed(&mut groups, cur, &line);
        proof {
            assert(done.push(line@).drop_last() =~= done);
            done = done.push(line@);
        }
    } else {
        assert(lines(v@) =~= done);
    }
    if !cur.text.as_str().is_empty() {
        let ghost g = groups@;
        groups.push(cur);
        assert(groups_view(groups@) =~= groups_view(g).push(cur@));
    }
    groups
}

/// Each alias preceded by one space.
pub open spec fn join_aliases(a: Seq<Seq<char>>) -> Seq<char>
    decreases a.len(),
{
    if a.len() == 0 {
        Seq::empty()
    } else {
        seq![' '] + a[0] + join_aliases(a.drop_first())
    }
}

/// What comes before the first `\n` of `s` (all of `s` if it has none).
pub open spec fn first_line(s: Seq<char>) -> Seq<char>
    decreases s.len(),
{
    if s.len() == 0 || s[0] == '\n' {
        Seq::empty()
    } else {
        seq![s[0]] + first_line(s.drop_first())
    }
}

/// ` # ` and the first line of the comment, if there is one.
pub open spec fn comment_text(c: Option<Seq<char>>) -> Seq<char> {
    match c {
        Some(c) => seq![' ', '#', ' '] + first_line(c),
        None => Seq::empty(),
    }
}

/// Neither the address nor any alias holds a line break.
pub open spec fn fields_one_line(it: ItemView) -> bool {
    &&& lacks(it.ip, '\n')
    &&& forall|i: int| 0 <= i < it.aliases.len() ==> lacks(#[trigger] it.aliases[i], '\n')
}

pub open spec fn disabled_mark(enabled: bool) -> Seq<char> {
    if enabled {
        Seq::empty()
    } else {
        seq!['#', ' ']
    }
}

/// The line of an entry: `# ` if it is disabled, the address, the aliases each
/// after a space, ` # ` and the first line of the comment if it has one, and the
/// line ending. An entry whose address or an alias holds a line break cannot
/// stand on one line and is written as an empty line.
pub open spec fn render_line(it: ItemView, eol: Seq<char>) -> Seq<char> {
    if fields_one_line(it) {
        disabled_mark(it.enabled) + it.ip + join_aliases(it.aliases) + comment_text(it.comment)
            + eol
    } else {
        eol
    }
}

/// The lines of the entries, in order.
pub open spec fn render_lines(items: Seq<ItemView>, eol: Seq<char>) -> Seq<char>
    decreases items.len(),
{
    if items.len() == 0 {
        Seq::empty()
    } else {
        render_line(items[0], eol) + render_lines(items.drop_first(), eol)
    }
}

/// `k` is the position of the first `\n` of `s`.
pub open spec fn first_newline(s: Seq<char>, k: int) -> bool {
    &&& 0 <= k < s.len()
    &&& s[k] == '\n'
    &&& forall|j: int| 0 <= j < k ==> s[j] != '\n'
}

/// The first line of `s` ends with `\r\n`.
pub open spec fn uses_crlf(s: Seq<char>) -> bool {
    exists|k: int| first_newline(s, k) && k > 0 && s[k - 1] == '\r'
}

/// The line ending of a text: `\r\n` where its first line ends so, else `\n`.
pub open spec fn eol_of(text: Seq<char>) -> Seq<char> {
    if uses_crlf(text) {
        seq!['\r', '\n']
    } else {
        seq!['\n']
    }
}

/// The text of an entry list, written with the line ending of `text`.
pub open spec fn render(items: Seq<ItemView>, text: Seq<char>) -> Seq<char> {
    render_lines(items, eol_of(text))
}

proof fn lemma_join_push(a: Seq<Seq<char>>, x: Seq<char>)
    ensures
        join_aliases(a.push(x)) == join_aliases(a) + seq![' '] + x,
    decreases a.len(),
{
    if a.len() == 0 {
        assert(a.push(x).drop_first() =~= Seq::<Seq<char>>::empty());
        assert(a.push(x)[0] == x);
        assert(join_aliases(a) == Seq::<char>::empty());
        assert(join_aliases(a.push(x).drop_first()) == Seq::<char>::empty());
        assert(join_aliases(a.push(x)) == seq![' '] + x + join_aliases(a.push(x).drop_first()));
        assert(join_aliases(a.push(x)) =~= join_aliases(a) + seq![' '] + x);
    } else {
        lemma_join_push(a.drop_first(), x);
        assert(a.push(x).drop_first() =~= a.drop_first().push(x));
        assert(a.push(x)[0] == a[0]);
        assert(join_aliases(a.push(x)) == seq![' '] + a[0] + join_aliases(a.push(x).drop_first()));
        assert(join_aliases(a.push(x)) =~= join_aliases(a) + seq![' '] + x);
    }
}

proof fn lemma_render_lines_push(items: Seq<ItemView>, x: ItemView, eol: Seq<char>)
    ensures
        render_lines(items.push(x), eol) == render_lines(items, eol) + render_line(x, eol),
    decreases items.len(),
{
    if items.len() == 0 {
        assert(items.push(x).drop_first() =~= Seq::<ItemView>::empty());
        assert(items.push(x)[0] == x);
        assert(render_lines(items, eol) == Seq::<char>::empty());
        assert(render_lines(items.push(x).drop_first(), eol) == Seq::<char>::empty());
        assert(render_lines(items.push(x), eol) == render_line(x, eol) + render_lines(items.push(x).drop_first(), eol));
        assert(render_lines(items.push(x), eol) =~= render_lines(items, eol) + render_line(x, eol));
    } else {
        lemma_render_lines_push(items.drop_first(), x, eol);
        assert(items.push(x).drop_first() =~= items.drop_first().push(x));
        assert(items.push(x)[0] == items[0]);
        assert(render_lines(items.push(x), eol) == render_line(items[0], eol) + render_lines(items.push(x).drop_first(), eol));
        assert(render_lines(items.push(x), eol) =~= render_lines(items, eol) + render_line(x, eol));
    }
}

/// Whether `s` holds no `\n`.
fn no_newline(s: &str) -> (r: bool)
    ensures
        r == lacks(s@, '\n'),
{
    let v = chars_of(s);
    let mut i: usize = 0;
    while i < v.len()
        invariant
            v@ == s@,
            i <= v.len(),
            forall|j: int| 0 <= j < i ==> v@[j] != '\n',
        decreases v.len() - i,
    {
        if v[i] == '\n' {
            return false;
        }
        i = i + 1;
    }
    true
}

/// Whether neither the address nor any alias of `it` holds a `\n`.
fn item_one_line(it: &Item) -> (r: bool)
    ensures
        r == fields_one_line(it@),
{
    if !no_newline(it.ip.as_str()) {
        return false;
    }
    let mut i: usize = 0;
    while i < it.aliases.len()
        invariant
            i <= it.aliases.len(),
            lacks(it.ip@, '\n'),
            forall|j: int| 0 <= j < i ==> lacks(#[trigger] strings_of(it.aliases@)[j], '\n'),
        decreases it.aliases.len() - i,
    {
        assert(strings_of(it.aliases@)[i as int] == it.aliases@[i as int]@);
        if !no_newline(it.aliases[i].as_str()) {
            assert(!lacks(it@.aliases[i as int], '\n'));
            return false;
        }
        i = i + 1;
    }
    true
}

/// The characters of `s` before its first `\n`.
fn first_line_of(s: &str) -> (r: String)
    ensures
        r@ == first_line(s@),
{
    let v = chars_of(s);
    let mut i: usize = 0;
    assert(v@.skip(0) =~= v@);
    assert(v@.take(0) + first_line(v@.skip(0)) =~= first_line(v@));
    while i < v.len() && v[i] != '\n'
        invariant
            i <= v.len(),
            first_line(v@) == v@.take(i as int) + first_line(v@.skip(i as int)),
        decreases v.len() - i,
    {
        let ghost rest = v@.skip(i as int);
        assert(rest.drop_first() =~= v@.skip(i + 1));
        assert(v@.take(i + 1) + first_line(v@.skip(i + 1)) =~= v@.take(i as int) + first_line(rest));
        i = i + 1;
    }
    assert(v@.take(i as int) + first_line(v@.skip(i as int)) =~= v@.take(i as int));
    assert(v@.subrange(0, i as int) =~= v@.take(i as int));
    string_of(&slice(&v, 0, i))
}

/// Writes the line of one entry at the end of `out`.
fn render_item(it: &Item, eol: &str, out: &mut String)
    ensures
        final(out)@ == old(out)@ + render_line(it@, eol@),
{
    let ghost start = out@;
    if !item_one_line(it) {
        out.append(eol);
        return;
    }
    if !it.enabled {
        push_char(out, '#');
        push_char(out, ' ');
    }
    assert(out@ =~= start + disabled_mark(it.enabled));
    out.append(it.ip.as_str());
    let ghost head = out@;
    let mut i: usize = 0;
    assert(out@ =~= head + join_aliases(strings_of(it.aliases@).take(0)));
    while i < it.aliases.len()
        invariant
            i <= it.aliases.len(),
            out@ == head + join_aliases(strings_of(it.aliases@).take(i as int)),
        decreases it.aliases.len() - i,
    {
        push_char(out, ' ');
        out.append(it.aliases[i].as_str());
        proof {
            let a = strings_of(it.aliases@);
            assert(a.take(i + 1) =~= a.take(i as int).push(a[i as int]));
            lemma_join_push(a.take(i as int), a[i as int]);
        }
        i = i + 1;
        assert(out@ =~= head + join_aliases(strings_of(it.aliases@).take(i as int)));
    }
    assert(strings_of(it.aliases@).take(i as int) =~= strings_of(it.aliases@));
    let ghost mid = out@;
    match &it.comment {
        Some(c) => {
            push_char(out, ' ');
            push_char(out, '#');
            push_char(out, ' ');
            let first = first_line_of(c.as_str());
            out.append(first.as_str());
        },
        None => {},
    }
    assert(out@ =~= mid + comment_text(it@.comment));
    out.append(eol);
    assert(out@ =~= start + render_line(it@, eol@));
}

/// Whether the first line of `v` ends with `\r\n`.
fn first_line_crlf(v: &Vec<char>) -> (r: bool)
    ensures
        r == uses_crlf(v@),
{
    let mut k: usize = 0;
    while k < v.len()
        invariant
            k <= v.len(),
            forall|j: int| 0 <= j < k ==> v@[j] != '\n',
        decreases v.len() - k,
    {
        if v[k] == '\n' {
            assert(first_newline(v@, k as int));
            assert forall|j: int| #[trigger] first_newline(v@, j) implies j == k by {
                if j < k {
                    assert(v@[j] != '\n');
                } else if j > k {
                    assert(v@[k as int] == '\n');
                }
            }
            return k > 0 && v[k - 1] == '\r';
        }
        k = k + 1;
    }
    assert forall|j: int| !#[trigger] first_newline(v@, j) by {
        if 0 <= j < k {
            assert(v@[j] != '\n');
        }
    }
    false
}

/// Writes an entry list as hosts-file lines, one per entry, with the line
/// ending that `text` uses.
pub fn list_to_text(list: &Vec<Item>, text: &str) -> (r: String)
    ensures
        r@ == render(items_view(list@), text@),
        lines(r@).len() == list@.len(),
{
    let v = chars_of(text);
    let eol = if first_line_crlf(&v) {
        "\r\n"
    } else {
        "\n"
    };
    proof {
        reveal_strlit("\r\n");
        reveal_strlit("\n");
    }
    assert(eol@ =~= eol_of(text@));
    let mut out = String::new();
    let mut i: usize = 0;
    assert(items_view(list@).take(0) =~= Seq::<ItemView>::empty());
    while i < list.len()
        invariant
            i <= list.len(),
            eol@ == eol_of(text@),
            out@ == render_lines(items_view(list@).take(i as int), eol@),
        decreases list.len() - i,
    {
        render_item(&list[i], eol, &mut out);
        proof {
            let a = items_view(list@);
            assert(a.take(i + 1) =~= a.take(i as int).push(a[i as int]));
            lemma_render_lines_push(a.take(i as int), a[i as int], eol@);
        }
        i = i + 1;
    }
    assert(items_view(list@).take(i as int) =~= items_view(list@));
    proof {
        lemma_render_line_count(items_view(list@), eol@);
    }
    out
}

} // verus!
