//! Text normalisation and tokenisation: lowercasing, whitespace splitting,
//! light stemming, stopword removal and synonym expansion.
use vstd::prelude::*;
use crate::chars::{
    char_is_alphanumeric, char_is_whitespace, char_to_lowercase, extend_chars, str_chars, str_eq,
    string_from_chars, str_to_lowercase, trim, trim_chars, trim_end, trim_start, unicode_alphanumeric,
    unicode_lowercase, unicode_str_lowercase, unicode_whitespace,
};

verus! {

/// The languages the tokenizer distinguishes.
#[derive(Clone, Copy, Debug, PartialEq, Eq, Structural)]
pub enum Lang {
    En,
    Es,
    Hi,
    Other,
}

// ---------------------------------------------------------------------------
// Normalisation

/// Left-to-right pass of `normalize_text` before trimming: every
/// alphanumeric character is replaced by its lowercase mapping, and every
/// maximal run of other characters becomes a single space. The flag tells
/// whether the output ends in such a space.
pub open spec fn normalize_pass(s: Seq<char>) -> (Seq<char>, bool)
    decreases s.len(),
{
    if s.len() == 0 {
        (Seq::empty(), false)
    } else {
        let (out, prev_space) = normalize_pass(s.drop_last());
        let c = s.last();
        if unicode_alphanumeric(c) {
            (out + unicode_lowercase(c), false)
        } else if !prev_space {
            (out.push(' '), true)
        } else {
            (out, prev_space)
        }
    }
}

/// What `normalize_text` returns for the characters `s`.
pub open spec fn normalize(s: Seq<char>) -> Seq<char> {
    trim(normalize_pass(s).0)
}

/// `normalize_pass` on a character vector.
fn normalize_pass_chars(v: &Vec<char>) -> (r: Vec<char>)
    ensures
        r@ == normalize_pass(v@).0,
{
    let mut out: Vec<char> = Vec::new();
    let mut prev_space = false;
    let mut i: usize = 0;
    while i < v.len()
        invariant
            i <= v.len(),
            (out@, prev_space) == normalize_pass(v@.take(i as int)),
        decreases v.len() - i,
    {
        let c = v[i];
        assert(v@.take(i + 1).drop_last() =~= v@.take(i as int));
        assert(v@.take(i + 1).last() == c);
        if char_is_alphanumeric(c) {
            let lower = char_to_lowercase(c);
            extend_chars(&mut out, &lower);
            prev_space = false;
        } else if !prev_space {
            out.push(' ');
            prev_space = true;
        }
        i += 1;
    }
    assert(v@.take(v@.len() as int) =~= v@);
    out
}

/// `normalize_text` on characters.
pub fn normalize_chars(v: &Vec<char>) -> (r: Vec<char>)
    ensures
        r@ == normalize(v@),
{
    let raw = normalize_pass_chars(v);
    trim_chars(&raw)
}

/// Lowercases the alphanumeric characters of `text`, turns every run of other
/// characters into one space, and trims the result.
pub fn normalize_text(text: &str) -> (r: String)
    ensures
        r@ == normalize(text@),
{
    let v = str_chars(text);
    let n = normalize_chars(&v);
    string_from_chars(&n)
}

// ---------------------------------------------------------------------------
// Whitespace splitting

/// The character sequences held by a vector of character vectors.
pub open spec fn char_words(v: Seq<Vec<char>>) -> Seq<Seq<char>> {
    v.map_values(|w: Vec<char>| w@)
}

/// The character sequences held by a vector of strings.
pub open spec fn string_views(v: Seq<String>) -> Seq<Seq<char>> {
    v.map_values(|s: String| s@)
}

/// Left-to-right pass of `split_whitespace`: the words completed so far and
/// the word under construction.
pub open spec fn split_pass(s: Seq<char>) -> (Seq<Seq<char>>, Seq<char>)
    decreases s.len(),
{
    if s.len() == 0 {
        (Seq::empty(), Seq::empty())
    } else {
        let (words, cur) = split_pass(s.drop_last());
        let c = s.last();
        if unicode_whitespace(c) {
            if cur.len() > 0 {
                (words.push(cur), Seq::empty())
            } else {
                (words, cur)
            }
        } else {
            (words, cur.push(c))
        }
    }
}

/// The maximal runs of non-whitespace characters of `s`, in order, as
/// `str::split_whitespace` yields them.
pub open spec fn words(s: Seq<char>) -> Seq<Seq<char>> {
    let (ws, cur) = split_pass(s);
    if cur.len() > 0 {
        ws.push(cur)
    } else {
        ws
    }
}

/// `str::split_whitespace` on characters.
pub fn split_whitespace(v: &Vec<char>) -> (r: Vec<Vec<char>>)
    ensures
        char_words(r@) == words(v@),
{
    let mut ws: Vec<Vec<char>> = Vec::new();
    let mut cur: Vec<char> = Vec::new();
    let mut i: usize = 0;
    while i < v.len()
        invariant
            i <= v.len(),
            (char_words(ws@), cur@) == split_pass(v@.take(i as int)),
        decreases v.len() - i,
    {
        let c = v[i];
        assert(v@.take(i + 1).drop_last() =~= v@.take(i as int));
        assert(v@.take(i + 1).last() == c);
        if char_is_whitespace(c) {
            if cur.len() > 0 {
                let ghost old_ws = char_words(ws@);
                let done = cur;
                cur = Vec::new();
                ws.push(done);
                assert(char_words(ws@) =~= old_ws.push(done@));
            }
        } else {
            cur.push(c);
        }
        i += 1;
    }
    assert(v@.take(v@.len() as int) =~= v@);
    if cur.len() > 0 {
        let ghost old_ws = char_words(ws@);
        let ghost last = cur@;
        ws.push(cur);
        assert(char_words(ws@) =~= old_ws.push(last));
    }
    ws
}

// ---------------------------------------------------------------------------
// Stemming

/// Every character is ASCII.
pub open spec fn all_ascii(s: Seq<char>) -> bool {
    forall|i: int| 0 <= i < s.len() ==> (s[i] as u32) < 128
}

/// `s` ends with `suf`.
pub open spec fn ends_with(s: Seq<char>, suf: Seq<char>) -> bool {
    suf.len() <= s.len() && s.subrange(s.len() - suf.len(), s.len() as int) == suf
}

/// `t` loses `suf` when it ends with it and is more than two characters longer.
pub open spec fn strips(t: Seq<char>, suf: Seq<char>) -> bool {
    t.len() > suf.len() + 2 && ends_with(t, suf)
}

/// What `stem_token` returns: for an ASCII token, the first of the suffixes
/// "ing", "edly", "ed", "ly", "es", "s" that it ends with and that leaves more
/// than two characters is removed; other tokens are kept as they are.
pub open spec fn stem(t: Seq<char>) -> Seq<char> {
    let n = t.len() as int;
    if !all_ascii(t) {
        t
    } else if strips(t, seq!['i', 'n', 'g']) {
        t.take(n - 3)
    } else if strips(t, seq!['e', 'd', 'l', 'y']) {
        t.take(n - 4)
    } else if strips(t, seq!['e', 'd']) {
        t.take(n - 2)
    } else if strips(t, seq!['l', 'y']) {
        t.take(n - 2)
    } else if strips(t, seq!['e', 's']) {
        t.take(n - 2)
    } else if strips(t, seq!['s']) {
        t.take(n - 1)
    } else {
        t
    }
}

fn chars_all_ascii(t: &Vec<char>) -> (r: bool)
    ensures
        r == all_ascii(t@),
{
    let mut i: usize = 0;
    while i < t.len()
        invariant
            i <= t.len(),
            forall|k: int| 0 <= k < i ==> (t@[k] as u32) < 128,
        decreases t.len() - i,
    {
        if (t[i] as u32) >= 128 {
            return false;
        }
        i += 1;
    }
    true
}

fn chars_strips(t: &Vec<char>, suf: &Vec<char>) -> (r: bool)
    ensures
        r == strips(t@, suf@),
{
    if t.len() <= suf.len() || t.len() - suf.len() <= 2 {
        return false;
    }
    let off = t.len() - suf.len();
    let mut i: usize = 0;
    while i < suf.len()
        invariant
            off + suf.len() == t.len(),
            i <= suf.len(),
            forall|k: int| 0 <= k < i ==> t@[off + k] == suf@[k],
        decreases suf.len() - i,
    {
        if t[off + i] != suf[i] {
            assert(t@.subrange(off as int, t@.len() as int)[i as int] != suf@[i as int]);
            return false;
        }
        i += 1;
    }
    assert(t@.subrange(off as int, t@.len() as int) =~= suf@);
    true
}

fn take_chars(t: &Vec<char>, n: usize) -> (r: Vec<char>)
    requires
        n <= t.len(),
    ensures
        r@ == t@.take(n as int),
{
    let mut out: Vec<char> = Vec::new();
    let mut i: usize = 0;
    while i < n
        invariant
            i <= n <= t.len(),
            out@ == t@.take(i as int),
        decreases n - i,
    {
        out.push(t[i]);
        assert(t@.take(i + 1) =~= t@.take(i as int).push(t@[i as int]));
        i += 1;
    }
    out
}

/// `stem_token` on characters.
pub fn stem_chars(t: &Vec<char>) -> (r: Vec<char>)
    ensures
        r@ == stem(t@),
{
    if !chars_all_ascii(t) {
        return t.clone();
    }
    let n = t.len();
    let s_ing = vec!['i', 'n', 'g'];
    assert(s_ing@ =~= seq!['i', 'n', 'g']);
    if chars_strips(t, &s_ing) {
        return take_chars(t, n - 3);
    }
    let s_edly = vec!['e', 'd', 'l', 'y'];
    assert(s_edly@ =~= seq!['e', 'd', 'l', 'y']);
    if chars_strips(t, &s_edly) {
        return take_chars(t, n - 4);
    }
    let s_ed = vec!['e', 'd'];
    assert(s_ed@ =~= seq!['e', 'd']);
    if chars_strips(t, &s_ed) {
        return take_chars(t, n - 2);
    }
    let s_ly = vec!['l', 'y'];
    assert(s_ly@ =~= seq!['l', 'y']);
    if chars_strips(t, &s_ly) {
        return take_chars(t, n - 2);
    }
    let s_es = vec!['e', 's'];
    assert(s_es@ =~= seq!['e', 's']);
    if chars_strips(t, &s_es) {
        return take_chars(t, n - 2);
    }
    let s_s = vec!['s'];
    assert(s_s@ =~= seq!['s']);
    if chars_strips(t, &s_s) {
        return take_chars(t, n - 1);
    }
    t.clone()
}

/// Removes a common English suffix from an ASCII token (see `stem`).
pub fn stem_token(token: &str) -> (r: String)
    ensures
        r@ == stem(token@),
{
    let v = str_chars(token);
    let s = stem_chars(&v);
    string_from_chars(&s)
}

// ---------------------------------------------------------------------------
// Stopwords

/// The English stopword list.
pub open spec fn stopwords_en() -> Seq<Seq<char>> {
    seq![
        "a"@, "about"@, "above"@, "after"@, "again"@, "against"@, "all"@, "am"@, "an"@, "and"@,
        "any"@, "are"@, "as"@, "at"@, "be"@, "because"@, "been"@, "before"@, "being"@, "below"@,
        "between"@, "both"@, "but"@, "by"@, "can"@, "could"@, "did"@, "do"@, "does"@, "doing"@,
        "down"@, "during"@, "each"@, "few"@, "for"@, "from"@, "further"@, "had"@, "has"@, "have"@,
        "having"@, "he"@, "her"@, "here"@, "hers"@, "herself"@, "him"@, "himself"@, "his"@, "how"@,
        "i"@, "if"@, "in"@, "into"@, "is"@, "it"@, "its"@, "itself"@, "just"@, "me"@, "more"@,
        "most"@, "my"@, "myself"@, "no"@, "nor"@, "not"@, "now"@, "of"@, "off"@, "on"@, "once"@,
        "only"@, "or"@, "other"@, "our"@, "ours"@, "ourselves"@, "out"@, "over"@, "own"@, "same"@,
        "she"@, "should"@, "so"@, "some"@, "such"@, "than"@, "that"@, "the"@, "their"@, "theirs"@,
        "them"@, "themselves"@, "then"@, "there"@, "these"@, "they"@, "this"@, "those"@,
        "through"@, "to"@, "too"@, "under"@, "until"@, "up"@, "very"@, "was"@, "we"@, "were"@,
        "what"@, "when"@, "where"@, "which"@, "while"@, "who"@, "whom"@, "why"@, "with"@, "you"@,
        "your"@, "yours"@, "yourself"@, "yourselves"@
    ]
}

/// The Spanish stopword list.
pub open spec fn stopwords_es() -> Seq<Seq<char>> {
    seq![
        "de"@, "la"@, "que"@, "el"@, "en"@, "y"@, "a"@, "los"@, "del"@, "se"@, "las"@, "por"@,
        "un"@, "para"@, "con"@, "no"@, "una"@, "su"@, "al"@, "lo"@
    ]
}

/// The Hindi stopword list.
pub open spec fn stopwords_hi() -> Seq<Seq<char>> {
    seq![
        "\u{914}\u{930}"@, "\u{915}\u{93e}"@, "\u{915}\u{947}"@, "\u{915}\u{940}"@,
        "\u{92e}\u{947}\u{902}"@, "\u{939}\u{948}"@, "\u{925}\u{93e}"@, "\u{925}\u{947}"@,
        "\u{924}\u{94b}"@, "\u{938}\u{947}"@, "\u{92a}\u{930}"@, "\u{92f}\u{939}"@,
        "\u{935}\u{939}"@, "\u{90f}\u{915}"@
    ]
}

/// The stopword list of a language (none for `Other`).
pub open spec fn stopwords(lang: Lang) -> Seq<Seq<char>> {
    match lang {
        Lang::En => stopwords_en(),
        Lang::Es => stopwords_es(),
        Lang::Hi => stopwords_hi(),
        Lang::Other => Seq::empty(),
    }
}

/// The character sequences of a vector of string slices.
pub open spec fn str_views(v: Seq<&str>) -> Seq<Seq<char>> {
    v.map_values(|w: &str| w@)
}

fn stopword_list(lang: Lang) -> (r: Vec<&'static str>)
    ensures
        str_views(r@) == stopwords(lang),
{
    let r: Vec<&'static str> = match lang {
        Lang::En => vec![
            "a", "about", "above", "after", "again", "against", "all", "am", "an", "and",
            "any", "are", "as", "at", "be", "because", "been", "before", "being", "below",
            "between", "both", "but", "by", "can", "could", "did", "do", "does", "doing",
            "down", "during", "each", "few", "for", "from", "further", "had", "has", "have",
            "having", "he", "her", "here", "hers", "herself", "him", "himself", "his", "how",
            "i", "if", "in", "into", "is", "it", "its", "itself", "just", "me", "more",
            "most", "my", "myself", "no", "nor", "not", "now", "of", "off", "on", "once",
            "only", "or", "other", "our", "ours", "ourselves", "out", "over", "own", "same",
            "she", "should", "so", "some", "such", "than", "that", "the", "their", "theirs",
            "them", "themselves", "then", "there", "these", "they", "this", "those",
            "through", "to", "too", "under", "until", "up", "very", "was", "we", "were",
            "what", "when", "where", "which", "while", "who", "whom", "why", "with", "you",
            "your", "yours", "yourself", "yourselves",
        ],
        Lang::Es => vec![
            "de", "la", "que", "el", "en", "y", "a", "los", "del", "se", "las", "por",
            "un", "para", "con", "no", "una", "su", "al", "lo",
        ],
        Lang::Hi => vec![
            "\u{914}\u{930}", "\u{915}\u{93e}", "\u{915}\u{947}", "\u{915}\u{940}",
            "\u{92e}\u{947}\u{902}", "\u{939}\u{948}", "\u{925}\u{93e}", "\u{925}\u{947}",
            "\u{924}\u{94b}", "\u{938}\u{947}", "\u{92a}\u{930}", "\u{92f}\u{939}",
            "\u{935}\u{939}", "\u{90f}\u{915}",
        ],
        Lang::Other => Vec::new(),
    };
    assert(str_views(r@) =~= stopwords(lang));
    r
}

/// Whether `word` occurs in `list`.
pub fn list_contains(list: &Vec<&str>, word: &str) -> (r: bool)
    ensures
        r == str_views(list@).contains(word@),
{
    let mut i: usize = 0;
    while i < list.len()
        invariant
            i <= list.len(),
            forall|k: int| 0 <= k < i ==> list@[k]@ != word@,
        decreases list.len() - i,
    {
        if str_eq(list[i], word) {
            assert(str_views(list@)[i as int] == word@);
            return true;
        }
        i += 1;
    }
    assert(!str_views(list@).contains(word@)) by {
        if str_views(list@).contains(word@) {
            let k = choose|k: int| 0 <= k < str_views(list@).len() && str_views(list@)[k] == word@;
            assert(list@[k]@ == word@);
        }
    }
    false
}

/// Whether `token` is an English stopword.
pub fn is_stopword(token: &str) -> (r: bool)
    ensures
        r == stopwords_en().contains(token@),
{
    let list = stopword_list(Lang::En);
    list_contains(&list, token)
}

/// Whether `token` is a stopword of `lang`.
pub fn is_stopword_lang(token: &str, lang: Lang) -> (r: bool)
    ensures
        r == stopwords(lang).contains(token@),
{
    let list = stopword_list(lang);
    list_contains(&list, token)
}

// ---------------------------------------------------------------------------
// Tokenisation

/// The stemmed words that are not stopwords of `lang`, in order.
pub open spec fn keep_tokens(ws: Seq<Seq<char>>, lang: Lang) -> Seq<Seq<char>>
    decreases ws.len(),
{
    if ws.len() == 0 {
        Seq::empty()
    } else {
        let prev = keep_tokens(ws.drop_last(), lang);
        let t = stem(ws.last());
        if stopwords(lang).contains(t) {
            prev
        } else {
            prev.push(t)
        }
    }
}

/// What `tokenize_with_lang(text, lang)` returns: the words of the
/// normalised text, stemmed, without the stopwords of `lang`.
pub open spec fn tokens(text: Seq<char>, lang: Lang) -> Seq<Seq<char>> {
    keep_tokens(words(normalize(text)), lang)
}

/// Stems the words and drops the stopwords of `lang`.
fn filter_words(ws: &Vec<Vec<char>>, lang: Lang) -> (r: Vec<String>)
    ensures
        string_views(r@) == keep_tokens(char_words(ws@), lang),
{
    let mut out: Vec<String> = Vec::new();
    let mut i: usize = 0;
    while i < ws.len()
        invariant
            i <= ws.len(),
            string_views(out@) == keep_tokens(char_words(ws@).take(i as int), lang),
        decreases ws.len() - i,
    {
        assert(char_words(ws@).take(i + 1).drop_last() =~= char_words(ws@).take(i as int));
        let st = stem_chars(&ws[i]);
        let s = string_from_chars(&st);
        let ghost prev = string_views(out@);
        if !is_stopword_lang(s.as_str(), lang) {
            out.push(s);
            assert(string_views(out@) =~= prev.push(st@));
        }
        i += 1;
    }
    assert(char_words(ws@).take(ws@.len() as int) =~= char_words(ws@));
    out
}

/// The tokens of `text`: normalised, split on whitespace, stemmed, and
/// without English stopwords.
pub fn tokenize(text: &str) -> (r: Vec<String>)
    ensures
        string_views(r@) == tokens(text@, Lang::En),
{
    tokenize_with_lang(text, Lang::En)
}

/// The tokens of `text`: normalised, split on whitespace, stemmed, and
/// without the stopwords of `lang`.
pub fn tokenize_with_lang(text: &str, lang: Lang) -> (r: Vec<String>)
    ensures
        string_views(r@) == tokens(text@, lang),
{
    let v = str_chars(text);
    let n = normalize_chars(&v);
    let ws = split_whitespace(&n);
    filter_words(&ws, lang)
}

// ---------------------------------------------------------------------------
// Token positions

/// The indices, among all the words `ws`, of the words whose stem is `t`
/// and is not an English stopword.
pub open spec fn positions_of(ws: Seq<Seq<char>>, t: Seq<char>) -> Seq<usize>
    decreases ws.len(),
{
    if ws.len() == 0 {
        Seq::empty()
    } else {
        let prev = positions_of(ws.drop_last(), t);
        let s = stem(ws.last());
        if s == t && !stopwords_en().contains(s) {
            prev.push((ws.len() - 1) as usize)
        } else {
            prev
        }
    }
}

/// For each token of a text, the word positions at which it occurs.
#[derive(Clone, Debug)]
pub struct TokenPositions {
    entries: Vec<(String, Vec<usize>)>,
}

impl TokenPositions {
    /// No two entries are for the same token.
    pub closed spec fn wf(&self) -> bool {
        forall|a: int, b: int|
            0 <= a < b < self.entries@.len() ==> self.entries@[a].0@ != self.entries@[b].0@
    }

    /// Whether the token `t` has an entry.
    pub closed spec fn has(&self, t: Seq<char>) -> bool {
        exists|k: int| 0 <= k < self.entries@.len() && self.entries@[k].0@ == t
    }

    /// The positions recorded for `t` (empty when it has no entry).
    pub closed spec fn at(&self, t: Seq<char>) -> Seq<usize> {
        if self.has(t) {
            let k = choose|k: int| 0 <= k < self.entries@.len() && self.entries@[k].0@ == t;
            self.entries@[k].1@
        } else {
            Seq::empty()
        }
    }

    /// The number of tokens with an entry.
    pub closed spec fn count(&self) -> nat {
        self.entries@.len()
    }

    /// The positions record of the words `ws`: every token that occurs has
    /// an entry, and the entry holds `positions_of(ws, t)`.
    pub open spec fn records(&self, ws: Seq<Seq<char>>) -> bool {
        &&& self.wf()
        &&& forall|t: Seq<char>| #[trigger] self.has(t) <==> positions_of(ws, t).len() > 0
        &&& forall|t: Seq<char>| #[trigger] self.at(t) == positions_of(ws, t)
    }

    /// An empty record.
    pub fn new() -> (r: Self)
        ensures
            r.wf(),
            r.count() == 0,
            forall|t: Seq<char>| !r.has(t) && r.at(t) == Seq::<usize>::empty(),
    {
        TokenPositions { entries: Vec::new() }
    }

    /// Whether no token has an entry.
    pub fn is_empty(&self) -> (r: bool)
        ensures
            r == (self.count() == 0),
            r ==> forall|t: Seq<char>| !self.has(t),
    {
        self.entries.len() == 0
    }

    /// Drops every entry.
    pub fn clear(&mut self)
        ensures
            final(self).wf(),
            final(self).count() == 0,
            forall|t: Seq<char>| !final(self).has(t),
    {
        self.entries = Vec::new();
    }

    fn find(&self, t: &str) -> (r: Option<usize>)
        requires
            self.wf(),
        ensures
            match r {
                Some(k) => k < self.entries@.len() && self.entries@[k as int].0@ == t@ && self.has(t@)
                    && self.at(t@) == self.entries@[k as int].1@,
                None => !self.has(t@),
            },
    {
        let mut k: usize = 0;
        while k < self.entries.len()
            invariant
                k <= self.entries@.len(),
                self.wf(),
                forall|j: int| 0 <= j < k ==> self.entries@[j].0@ != t@,
            decreases self.entries.len() - k,
        {
            if str_eq(self.entries[k].0.as_str(), t) {
                proof {
                    let c = choose|c: int| 0 <= c < self.entries@.len() && self.entries@[c].0@ == t@;
                    lemma_unique_key(self.entries@, c, k as int, t@);
                }
                return Some(k);
            }
            k += 1;
        }
        None
    }

    /// The positions recorded for `term`, if it has an entry.
    pub fn get(&self, term: &str) -> (r: Option<Vec<usize>>)
        requires
            self.wf(),
        ensures
            match r {
                Some(v) => self.has(term@) && v@ == self.at(term@),
                None => !self.has(term@) && self.at(term@) == Seq::<usize>::empty(),
            },
    {
        match self.find(term) {
            Some(k) => Some(self.entries[k].1.clone()),
            None => None,
        }
    }
}

proof fn lemma_positions_step(before: Seq<Seq<char>>, w: Seq<char>, t: Seq<char>)
    ensures
        positions_of(before.push(w), t) == (if stem(w) == t && !stopwords_en().contains(t) {
            positions_of(before, t).push(before.len() as usize)
        } else {
            positions_of(before, t)
        }),
{
    assert(before.push(w).drop_last() =~= before);
}

proof fn lemma_unique_key(e: Seq<(String, Vec<usize>)>, a: int, b: int, t: Seq<char>)
    requires
        forall|x: int, y: int| 0 <= x < y < e.len() ==> e[x].0@ != e[y].0@,
        0 <= a < e.len(),
        0 <= b < e.len(),
        e[a].0@ == t,
        e[b].0@ == t,
    ensures
        a == b,
{
    if a < b {
        assert(e[a].0@ != e[b].0@);
    } else if b < a {
        assert(e[b].0@ != e[a].0@);
    }
}

/// The positions of a token among words `ws` are the positions, in
/// increasing order, of the words that stem to it, one for each time it
/// occurs among the English tokens of `ws`; a token has positions exactly
/// when it is one of those tokens.
pub proof fn lemma_positions_of_tokens(ws: Seq<Seq<char>>, t: Seq<char>)
    requires
        ws.len() <= usize::MAX,
    ensures
        positions_of(ws, t).len() == crate::term_index::occurrences(keep_tokens(ws, Lang::En), t),
        (positions_of(ws, t).len() > 0) == keep_tokens(ws, Lang::En).contains(t),
        forall|i: int, j: int|
            0 <= i < j < positions_of(ws, t).len() ==> #[trigger] positions_of(ws, t)[i] < #[trigger] positions_of(
                ws,
                t,
            )[j],
        forall|i: int|
            0 <= i < positions_of(ws, t).len() ==> (#[trigger] positions_of(ws, t)[i]) < ws.len() && stem(
                ws[positions_of(ws, t)[i] as int],
            ) == t,
    decreases ws.len(),
{
    if ws.len() > 0 {
        let prev = ws.drop_last();
        lemma_positions_of_tokens(prev, t);
        let kp = keep_tokens(prev, Lang::En);
        let pp = positions_of(prev, t);
        let w = ws.last();
        let s = stem(w);
        assert forall|i: int| 0 <= i < pp.len() implies ws[pp[i] as int] == prev[pp[i] as int] by {}
        if stopwords(Lang::En).contains(s) {
            assert(keep_tokens(ws, Lang::En) == kp);
        } else {
            let k = kp.push(s);
            assert(keep_tokens(ws, Lang::En) == k);
            assert(k.drop_last() =~= kp);
            if s == t {
                assert(k[k.len() - 1] == t);
            } else {
                if k.contains(t) {
                    let m = choose|m: int| 0 <= m < k.len() && k[m] == t;
                    assert(m < kp.len());
                    assert(kp[m] == t);
                }
                if kp.contains(t) {
                    let m = choose|m: int| 0 <= m < kp.len() && kp[m] == t;
                    assert(k[m] == t);
                }
            }
        }
    }
}

/// The tokens of `text` (as `tokenize`) and, for each token, the positions
/// among all the words of the normalised text at which it occurs.
pub fn tokenize_with_positions(text: &str) -> (r: (Vec<String>, TokenPositions))
    ensures
        string_views(r.0@) == tokens(text@, Lang::En),
        r.1.records(words(normalize(text@))),
        forall|t: Seq<char>| #[trigger] r.1.has(t) == string_views(r.0@).contains(t),
        forall|t: Seq<char>| #[trigger] r.1.at(t).len() == crate::term_index::occurrences(string_views(r.0@), t),
        forall|t: Seq<char>, i: int, j: int|
            0 <= i < j < r.1.at(t).len() ==> #[trigger] r.1.at(t)[i] < #[trigger] r.1.at(t)[j],
        forall|t: Seq<char>, i: int|
            0 <= i < r.1.at(t).len() ==> (#[trigger] r.1.at(t)[i]) < words(normalize(text@)).len() && stem(
                words(normalize(text@))[r.1.at(t)[i] as int],
            ) == t,
{
    let v = str_chars(text);
    let n = normalize_chars(&v);
    let ws = split_whitespace(&n);
    let ghost all = char_words(ws@);
    let mut toks: Vec<String> = Vec::new();
    let mut pos = TokenPositions::new();
    let mut i: usize = 0;
    while i < ws.len()
        invariant
            i <= ws.len(),
            all == char_words(ws@),
            string_views(toks@) == keep_tokens(all.take(i as int), Lang::En),
            pos.records(all.take(i as int)),
        decreases ws.len() - i,
    {
        let ghost before = all.take(i as int);
        let ghost after = all.take(i + 1);
        assert(after.drop_last() =~= before);
        assert(after =~= before.push(ws@[i as int]@));
        let st = stem_chars(&ws[i]);
        let token = string_from_chars(&st);
        if !is_stopword(token.as_str()) {
            let ghost prev = string_views(toks@);
            toks.push(token.clone());
            assert(string_views(toks@) =~= prev.push(st@));
            let ghost old_pos = pos;
            match pos.find(token.as_str()) {
                Some(k) => {
                    let mut list = pos.entries[k].1.clone();
                    list.push(i);
                    pos.entries.set(k, (token, list));
                    proof {
                        assert forall|a: int, b: int| 0 <= a < b < pos.entries@.len() implies
                            pos.entries@[a].0@ != pos.entries@[b].0@ by {
                            assert(old_pos.entries@[a].0@ != old_pos.entries@[b].0@);
                        }
                        assert forall|t: Seq<char>| #[trigger] pos.has(t) <==> positions_of(after, t).len() > 0 by {
                            lemma_positions_step(before, ws@[i as int]@, t);
                            assert(old_pos.has(t) <==> positions_of(before, t).len() > 0);
                            if pos.has(t) {
                                let c = choose|c: int| 0 <= c < pos.entries@.len() && pos.entries@[c].0@ == t;
                                assert(old_pos.entries@[c].0@ == t);
                            }
                            if old_pos.has(t) {
                                let c = choose|c: int| 0 <= c < old_pos.entries@.len() && old_pos.entries@[c].0@ == t;
                                assert(pos.entries@[c].0@ == t);
                            }
                        }
                        assert forall|t: Seq<char>| #[trigger] pos.at(t) == positions_of(after, t) by {
                            lemma_positions_step(before, ws@[i as int]@, t);
                            assert(old_pos.at(t) == positions_of(before, t));
                            assert(old_pos.has(t) <==> positions_of(before, t).len() > 0);
                            if pos.has(t) {
                                let c = choose|c: int| 0 <= c < pos.entries@.len() && pos.entries@[c].0@ == t;
                                assert(old_pos.entries@[c].0@ == t);
                                let c2 = choose|c: int| 0 <= c < old_pos.entries@.len() && old_pos.entries@[c].0@ == t;
                                lemma_unique_key(old_pos.entries@, c, c2, t);
                                if t == st@ {
                                    lemma_unique_key(old_pos.entries@, c, k as int, t);
                                    assert(pos.entries@[c].1@ =~= old_pos.entries@[c].1@.push(i));
                                }
                            } else {
                                if old_pos.has(t) {
                                    let c = choose|c: int| 0 <= c < old_pos.entries@.len() && old_pos.entries@[c].0@ == t;
                                    assert(pos.entries@[c].0@ == t);
                                }
                            }
                        }
                    }
                }
                None => {
                    let mut list: Vec<usize> = Vec::new();
                    list.push(i);
                    pos.entries.push((token, list));
                    proof {
                        let last = old_pos.entries@.len() as int;
                        assert(pos.entries@[last].0@ == st@);
                        assert(pos.entries@[last].1@ =~= seq![i]);
                        assert forall|a: int, b: int| 0 <= a < b < pos.entries@.len() implies
                            pos.entries@[a].0@ != pos.entries@[b].0@ by {
                            if b < last {
                                assert(old_pos.entries@[a].0@ != old_pos.entries@[b].0@);
                            } else {
                                if old_pos.entries@[a].0@ == st@ {
                                    assert(old_pos.has(st@));
                                }
                            }
                        }
                        assert forall|t: Seq<char>| #[trigger] pos.has(t) <==> positions_of(after, t).len() > 0 by {
                            lemma_positions_step(before, ws@[i as int]@, t);
                            assert(old_pos.has(t) <==> positions_of(before, t).len() > 0);
                            if pos.has(t) {
                                let c = choose|c: int| 0 <= c < pos.entries@.len() && pos.entries@[c].0@ == t;
                                if c < last {
                                    assert(old_pos.entries@[c].0@ == t);
                                }
                            }
                            if old_pos.has(t) {
                                let c = choose|c: int| 0 <= c < old_pos.entries@.len() && old_pos.entries@[c].0@ == t;
                                assert(pos.entries@[c].0@ == t);
                            }
                        }
                        assert forall|t: Seq<char>| #[trigger] pos.at(t) == positions_of(after, t) by {
                            lemma_positions_step(before, ws@[i as int]@, t);
                            assert(old_pos.at(t) == positions_of(before, t));
                            assert(old_pos.has(t) <==> positions_of(before, t).len() > 0);
                            if pos.has(t) {
                                let c = choose|c: int| 0 <= c < pos.entries@.len() && pos.entries@[c].0@ == t;
                                if c < last {
                                    assert(old_pos.entries@[c].0@ == t);
                                    let c2 = choose|c: int| 0 <= c < old_pos.entries@.len() && old_pos.entries@[c].0@ == t;
                                    lemma_unique_key(old_pos.entries@, c, c2, t);
                                    if t == st@ {
                                        assert(old_pos.has(st@));
                                    }
                                } else {
                                    assert(t == st@);
                                }
                            } else {
                                if old_pos.has(t) {
                                    let c = choose|c: int| 0 <= c < old_pos.entries@.len() && old_pos.entries@[c].0@ == t;
                                    assert(pos.entries@[c].0@ == t);
                                }
                            }
                        }
                    }
                }
            }
        } else {
            proof {
                assert forall|t: Seq<char>| #[trigger] pos.has(t) <==> positions_of(after, t).len() > 0 by {
                    lemma_positions_step(before, ws@[i as int]@, t);
                }
                assert forall|t: Seq<char>| #[trigger] pos.at(t) == positions_of(after, t) by {
                    lemma_positions_step(before, ws@[i as int]@, t);
                }
            }
        }
        i += 1;
    }
    assert(all.take(ws@.len() as int) =~= all);
    proof {
        assert(all == words(normalize(text@)));
        assert(all.len() <= usize::MAX);
        assert forall|t: Seq<char>| #[trigger] pos.has(t) == string_views(toks@).contains(t) by {
            lemma_positions_of_tokens(all, t);
        }
        assert forall|t: Seq<char>| #[trigger] pos.at(t).len() == crate::term_index::occurrences(string_views(toks@), t) by {
            lemma_positions_of_tokens(all, t);
        }
        assert forall|t: Seq<char>, i: int, j: int| 0 <= i < j < pos.at(t).len() implies #[trigger] pos.at(t)[i]
            < #[trigger] pos.at(t)[j] by {
            lemma_positions_of_tokens(all, t);
        }
        assert forall|t: Seq<char>, i: int| 0 <= i < pos.at(t).len() implies (#[trigger] pos.at(t)[i]) < all.len()
            && stem(all[pos.at(t)[i] as int]) == t by {
            lemma_positions_of_tokens(all, t);
        }
    }
    (toks, pos)
}

// ---------------------------------------------------------------------------
// Synonym expansion

/// The synonyms of `t` in the table of `lang` (empty when it has none).
pub open spec fn synonyms(lang: Lang, t: Seq<char>) -> Seq<Seq<char>> {
    match lang {
        Lang::En => if t == "bm25"@ {
            seq!["ranking"@, "tfidf"@, "tf-idf"@]
        } else if t == "vector"@ {
            seq!["embedding"@, "semantic"@]
        } else if t == "search"@ {
            seq!["retrieve"@, "retrieval"@]
        } else {
            Seq::empty()
        },
        Lang::Es => if t == "buscar"@ {
            seq!["busqueda"@, "recuperar"@]
        } else if t == "vector"@ {
            seq!["embebido"@, "semantico"@]
        } else {
            Seq::empty()
        },
        Lang::Hi => if t == "\u{916}\u{94b}\u{91c}"@ {
            seq!["\u{938}\u{930}\u{94d}\u{91a}"@, "\u{916}\u{94b}\u{91c}\u{928}\u{93e}"@]
        } else {
            Seq::empty()
        },
        Lang::Other => Seq::empty(),
    }
}

/// Each token followed by its synonyms in the table of `lang`.
pub open spec fn expand(ts: Seq<Seq<char>>, lang: Lang) -> Seq<Seq<char>>
    decreases ts.len(),
{
    if ts.len() == 0 {
        Seq::empty()
    } else {
        expand(ts.drop_last(), lang).push(ts.last()) + synonyms(lang, ts.last())
    }
}

fn synonym_list(t: &str, lang: Lang) -> (r: Vec<&'static str>)
    ensures
        str_views(r@) == synonyms(lang, t@),
{
    let r: Vec<&'static str> = match lang {
        Lang::En => if str_eq(t, "bm25") {
            vec!["ranking", "tfidf", "tf-idf"]
        } else if str_eq(t, "vector") {
            vec!["embedding", "semantic"]
        } else if str_eq(t, "search") {
            vec!["retrieve", "retrieval"]
        } else {
            Vec::new()
        },
        Lang::Es => if str_eq(t, "buscar") {
            vec!["busqueda", "recuperar"]
        } else if str_eq(t, "vector") {
            vec!["embebido", "semantico"]
        } else {
            Vec::new()
        },
        Lang::Hi => if str_eq(t, "\u{916}\u{94b}\u{91c}") {
            vec!["\u{938}\u{930}\u{94d}\u{91a}", "\u{916}\u{94b}\u{91c}\u{928}\u{93e}"]
        } else {
            Vec::new()
        },
        Lang::Other => Vec::new(),
    };
    assert(str_views(r@) =~= synonyms(lang, t@));
    r
}

/// Copies `tokens`, following each one by its synonyms in the table of `lang`.
pub fn expand_tokens(tokens: &[String], lang: Lang) -> (r: Vec<String>)
    ensures
        string_views(r@) == expand(string_views(tokens@), lang),
{
    let mut out: Vec<String> = Vec::new();
    let mut i: usize = 0;
    while i < tokens.len()
        invariant
            i <= tokens.len(),
            string_views(out@) == expand(string_views(tokens@).take(i as int), lang),
        decreases tokens.len() - i,
    {
        let ghost ts = string_views(tokens@).take(i + 1);
        assert(ts.drop_last() =~= string_views(tokens@).take(i as int));
        let ghost base = string_views(out@).push(tokens@[i as int]@);
        out.push(tokens[i].clone());
        assert(string_views(out@) =~= base);
        let syns = synonym_list(tokens[i].as_str(), lang);
        let mut j: usize = 0;
        while j < syns.len()
            invariant
                j <= syns.len(),
                string_views(out@) == base + str_views(syns@).take(j as int),
            decreases syns.len() - j,
        {
            let ghost before = string_views(out@);
            out.push(String::from_str(syns[j]));
            assert(string_views(out@) =~= before.push(syns@[j as int]@));
            assert(str_views(syns@).take(j + 1) =~= str_views(syns@).take(j as int).push(syns@[j as int]@));
            j += 1;
        }
        assert(str_views(syns@).take(syns@.len() as int) =~= str_views(syns@));
        i += 1;
    }
    assert(string_views(tokens@).take(tokens@.len() as int) =~= string_views(tokens@));
    out
}

/// The English tokens of `query`, each followed by its English synonyms.
pub fn process_query(query: &str) -> (r: Vec<String>)
    ensures
        string_views(r@) == expand(tokens(query@, Lang::En), Lang::En),
{
    let base = tokenize(query);
    expand_tokens(base.as_slice(), Lang::En)
}

// ---------------------------------------------------------------------------
// Sentences

/// Whether `c` ends a sentence.
pub open spec fn is_terminator(c: char) -> bool {
    c == '.' || c == '!' || c == '?'
}

/// Left-to-right pass of `split_sentences`: the sentences completed so far
/// and the text since the last terminator.
pub open spec fn sentence_pass(s: Seq<char>) -> (Seq<Seq<char>>, Seq<char>)
    decreases s.len(),
{
    if s.len() == 0 {
        (Seq::empty(), Seq::empty())
    } else {
        let (done, cur) = sentence_pass(s.drop_last());
        let c = s.last();
        let cur2 = cur.push(c);
        if is_terminator(c) {
            if trim(cur2).len() > 0 {
                (done.push(trim(cur2)), Seq::empty())
            } else {
                (done, Seq::empty())
            }
        } else {
            (done, cur2)
        }
    }
}

/// The sentences of `s`: the text is cut after every '.', '!' and '?', each
/// piece is trimmed, and empty pieces are dropped.
pub open spec fn sentences(s: Seq<char>) -> Seq<Seq<char>> {
    let (done, cur) = sentence_pass(s);
    if trim(cur).len() > 0 {
        done.push(trim(cur))
    } else {
        done
    }
}

/// Whether `c` is '.', '!' or '?'.
pub open spec fn ends_sentence(c: char) -> bool {
    c == '.' || c == '!' || c == '?'
}

/// No '.', '!' or '?' stands anywhere in `p` but, perhaps, at its end.
pub open spec fn closed_only_at_end(p: Seq<char>) -> bool {
    forall|i: int| 0 <= i < p.len() - 1 ==> !ends_sentence(#[trigger] p[i])
}

proof fn lemma_trim_start_sub(s: Seq<char>)
    ensures
        exists|a: int| 0 <= a <= s.len() && trim_start(s) == s.subrange(a, s.len() as int),
    decreases s.len(),
{
    if s.len() > 0 && unicode_whitespace(s[0]) {
        lemma_trim_start_sub(s.drop_first());
        let a = choose|a: int| 0 <= a <= s.drop_first().len() && trim_start(s.drop_first()) == s.drop_first().subrange(
            a,
            s.drop_first().len() as int,
        );
        assert(s.drop_first().subrange(a, s.drop_first().len() as int) =~= s.subrange(a + 1, s.len() as int));
    } else {
        assert(s.subrange(0, s.len() as int) =~= s);
    }
}

proof fn lemma_trim_end_sub(s: Seq<char>)
    ensures
        exists|b: int| 0 <= b <= s.len() && trim_end(s) == s.subrange(0, b),
    decreases s.len(),
{
    if s.len() > 0 && unicode_whitespace(s.last()) {
        lemma_trim_end_sub(s.drop_last());
        let b = choose|b: int| 0 <= b <= s.drop_last().len() && trim_end(s.drop_last()) == s.drop_last().subrange(0, b);
        assert(s.drop_last().subrange(0, b) =~= s.subrange(0, b));
    } else {
        assert(s.subrange(0, s.len() as int) =~= s);
    }
}

/// Trimming keeps a run of consecutive characters of `s`.
proof fn lemma_trim_sub(s: Seq<char>)
    ensures
        exists|a: int, b: int| 0 <= a <= b <= s.len() && trim(s) == s.subrange(a, b),
{
    lemma_trim_start_sub(s);
    let a = choose|a: int| 0 <= a <= s.len() && trim_start(s) == s.subrange(a, s.len() as int);
    let t = trim_start(s);
    lemma_trim_end_sub(t);
    let b = choose|b: int| 0 <= b <= t.len() && trim_end(t) == t.subrange(0, b);
    assert(t.subrange(0, b) =~= s.subrange(a, a + b));
}

/// A trimmed piece with no sentence end but, perhaps, its last character
/// keeps that property.
proof fn lemma_trim_closed(x: Seq<char>)
    requires
        closed_only_at_end(x),
    ensures
        closed_only_at_end(trim(x)),
{
    lemma_trim_sub(x);
    let (a, b) = choose|a: int, b: int| 0 <= a <= b <= x.len() && trim(x) == x.subrange(a, b);
    assert forall|i: int| 0 <= i < trim(x).len() - 1 implies !ends_sentence(#[trigger] trim(x)[i]) by {
        assert(trim(x)[i] == x[a + i]);
        assert(a + i < x.len() - 1);
    }
}

proof fn lemma_sentence_pass_closed(s: Seq<char>)
    ensures
        forall|k: int| 0 <= k < sentence_pass(s).0.len() ==> closed_only_at_end(#[trigger] sentence_pass(s).0[k]),
        forall|k: int| 0 <= k < sentence_pass(s).1.len() ==> !ends_sentence(#[trigger] sentence_pass(s).1[k]),
    decreases s.len(),
{
    if s.len() > 0 {
        lemma_sentence_pass_closed(s.drop_last());
        let (done, cur) = sentence_pass(s.drop_last());
        let c = s.last();
        let cur2 = cur.push(c);
        if is_terminator(c) {
            assert forall|i: int| 0 <= i < cur2.len() - 1 implies !ends_sentence(#[trigger] cur2[i]) by {
                assert(cur2[i] == cur[i]);
            }
            lemma_trim_closed(cur2);
        } else {
            assert forall|k: int| 0 <= k < cur2.len() implies !ends_sentence(#[trigger] cur2[k]) by {
                if k < cur.len() {
                    assert(cur2[k] == cur[k]);
                }
            }
        }
    }
}

/// Every '.', '!' and '?' ends a sentence: no sentence holds one anywhere
/// but as its last character.
pub proof fn lemma_sentences_end_at_terminators(s: Seq<char>)
    ensures
        forall|k: int| 0 <= k < sentences(s).len() ==> closed_only_at_end(#[trigger] sentences(s)[k]),
{
    lemma_sentence_pass_closed(s);
    let (done, cur) = sentence_pass(s);
    assert(closed_only_at_end(cur));
    lemma_trim_closed(cur);
}

/// The characters of `s` that are not whitespace, in order.
pub open spec fn visible(s: Seq<char>) -> Seq<char>
    decreases s.len(),
{
    if s.len() == 0 {
        Seq::empty()
    } else if unicode_whitespace(s.last()) {
        visible(s.drop_last())
    } else {
        visible(s.drop_last()).push(s.last())
    }
}

/// The characters that are not whitespace of all the pieces, in order.
pub open spec fn visible_all(ps: Seq<Seq<char>>) -> Seq<char>
    decreases ps.len(),
{
    if ps.len() == 0 {
        Seq::empty()
    } else {
        visible_all(ps.drop_last()) + visible(ps.last())
    }
}

proof fn lemma_visible_concat(a: Seq<char>, b: Seq<char>)
    ensures
        visible(a + b) == visible(a) + visible(b),
    decreases b.len(),
{
    if b.len() == 0 {
        assert(a + b =~= a);
        assert(visible(a) + visible(b) =~= visible(a));
    } else {
        lemma_visible_concat(a, b.drop_last());
        assert((a + b).drop_last() =~= a + b.drop_last());
        assert((a + b).last() == b.last());
        if !unicode_whitespace(b.last()) {
            assert(visible(a) + visible(b.drop_last()).push(b.last()) =~= (visible(a) + visible(
                b.drop_last(),
            )).push(b.last()));
        }
    }
}

proof fn lemma_visible_trim(s: Seq<char>)
    ensures
        visible(trim(s)) == visible(s),
{
    lemma_visible_trim_start(s);
    lemma_visible_trim_end(trim_start(s));
}

proof fn lemma_visible_trim_start(s: Seq<char>)
    ensures
        visible(trim_start(s)) == visible(s),
    decreases s.len(),
{
    if s.len() > 0 && unicode_whitespace(s[0]) {
        lemma_visible_trim_start(s.drop_first());
        assert(s =~= seq![s[0]] + s.drop_first());
        lemma_visible_concat(seq![s[0]], s.drop_first());
        let one = seq![s[0]];
        assert(one.last() == s[0]);
        assert(one.drop_last() =~= Seq::<char>::empty());
        assert(visible(one.drop_last()) =~= Seq::<char>::empty());
        assert(visible(one) =~= Seq::<char>::empty());
        assert(Seq::<char>::empty() + visible(s.drop_first()) =~= visible(s.drop_first()));
    }
}

proof fn lemma_visible_trim_end(s: Seq<char>)
    ensures
        visible(trim_end(s)) == visible(s),
    decreases s.len(),
{
    if s.len() > 0 && unicode_whitespace(s.last()) {
        lemma_visible_trim_end(s.drop_last());
    }
}

proof fn lemma_sentence_pass_visible(s: Seq<char>)
    ensures
        visible_all(sentence_pass(s).0) + visible(sentence_pass(s).1) == visible(s),
    decreases s.len(),
{
    if s.len() == 0 {
        assert(visible_all(Seq::<Seq<char>>::empty()) + visible(Seq::<char>::empty()) =~= Seq::<char>::empty());
    } else {
        lemma_sentence_pass_visible(s.drop_last());
        let (done, cur) = sentence_pass(s.drop_last());
        let c = s.last();
        let cur2 = cur.push(c);
        assert(cur2.drop_last() =~= cur);
        assert(s =~= s.drop_last().push(c));
        lemma_visible_concat(s.drop_last(), seq![c]);
        lemma_visible_concat(cur, seq![c]);
        assert(s.drop_last() + seq![c] =~= s);
        assert(cur + seq![c] =~= cur2);
        assert(visible_all(done) + visible(cur2) =~= visible(s)) by {
            assert(visible_all(done) + (visible(cur) + visible(seq![c])) =~= (visible_all(done) + visible(cur))
                + visible(seq![c]));
        }
        if is_terminator(c) {
            lemma_visible_trim(cur2);
            assert(visible(Seq::<char>::empty()) =~= Seq::<char>::empty());
            if trim(cur2).len() > 0 {
                assert(done.push(trim(cur2)).drop_last() =~= done);
                assert(visible_all(done.push(trim(cur2))) + Seq::<char>::empty() =~= visible_all(done)
                    + visible(cur2));
            } else {
                assert(trim(cur2) =~= Seq::<char>::empty());
                assert(visible_all(done) + Seq::<char>::empty() =~= visible_all(done) + visible(cur2));
            }
        }
    }
}

/// Splitting loses no character but whitespace: the pieces hold, in order,
/// every character of the text that is not whitespace.
pub proof fn lemma_sentences_keep_text(s: Seq<char>)
    ensures
        visible_all(sentences(s)) == visible(s),
{
    lemma_sentence_pass_visible(s);
    let (done, cur) = sentence_pass(s);
    lemma_visible_trim(cur);
    if trim(cur).len() > 0 {
        assert(done.push(trim(cur)).drop_last() =~= done);
    } else {
        assert(trim(cur) =~= Seq::<char>::empty());
        assert(visible_all(done) + Seq::<char>::empty() =~= visible_all(done));
    }
}

/// `split_sentences` on characters.
pub fn split_sentences_chars(v: &Vec<char>) -> (r: Vec<Vec<char>>)
    ensures
        char_words(r@) == sentences(v@),
{
    let mut done: Vec<Vec<char>> = Vec::new();
    let mut cur: Vec<char> = Vec::new();
    let mut i: usize = 0;
    while i < v.len()
        invariant
            i <= v.len(),
            (char_words(done@), cur@) == sentence_pass(v@.take(i as int)),
        decreases v.len() - i,
    {
        let c = v[i];
        assert(v@.take(i + 1).drop_last() =~= v@.take(i as int));
        assert(v@.take(i + 1).last() == c);
        cur.push(c);
        if c == '.' || c == '!' || c == '?' {
            let t = trim_chars(&cur);
            if t.len() > 0 {
                let ghost before = char_words(done@);
                let ghost tv = t@;
                done.push(t);
                assert(char_words(done@) =~= before.push(tv));
            }
            cur = Vec::new();
        }
        i += 1;
    }
    assert(v@.take(v@.len() as int) =~= v@);
    let t = trim_chars(&cur);
    if t.len() > 0 {
        let ghost before = char_words(done@);
        let ghost tv = t@;
        done.push(t);
        assert(char_words(done@) =~= before.push(tv));
    }
    done
}

/// Cuts `text` into trimmed, non-empty sentences ending at '.', '!' or '?'.
pub fn split_sentences(text: &str) -> (r: Vec<String>)
    ensures
        string_views(r@) == sentences(text@),
{
    let v = str_chars(text);
    let parts = split_sentences_chars(&v);
    let mut out: Vec<String> = Vec::new();
    let mut i: usize = 0;
    while i < parts.len()
        invariant
            i <= parts.len(),
            string_views(out@) == char_words(parts@).take(i as int),
        decreases parts.len() - i,
    {
        let ghost before = string_views(out@);
        out.push(string_from_chars(&parts[i]));
        assert(string_views(out@) =~= before.push(parts@[i as int]@));
        assert(char_words(parts@).take(i + 1) =~= char_words(parts@).take(i as int).push(parts@[i as int]@));
        i += 1;
    }
    assert(char_words(parts@).take(parts@.len() as int) =~= char_words(parts@));
    out
}

// ---------------------------------------------------------------------------
// Substring search and language detection

/// `needle` occurs in `hay` at index `i`.
pub open spec fn occurs_at(hay: Seq<char>, needle: Seq<char>, i: int) -> bool {
    0 <= i && i + needle.len() <= hay.len() && hay.subrange(i, i + needle.len()) == needle
}

/// `needle` occurs somewhere in `hay`.
pub open spec fn contains_seq(hay: Seq<char>, needle: Seq<char>) -> bool {
    exists|i: int| occurs_at(hay, needle, i)
}

fn matches_at(hay: &Vec<char>, needle: &Vec<char>, i: usize) -> (r: bool)
    requires
        i + needle.len() <= hay.len(),
    ensures
        r == occurs_at(hay@, needle@, i as int),
{
    let mut j: usize = 0;
    while j < needle.len()
        invariant
            i + needle.len() <= hay.len(),
            j <= needle.len(),
            forall|k: int| 0 <= k < j ==> hay@[i + k] == needle@[k],
        decreases needle.len() - j,
    {
        if hay[i + j] != needle[j] {
            assert(hay@.subrange(i as int, i + needle.len())[j as int] != needle@[j as int]);
            return false;
        }
        j += 1;
    }
    assert(hay@.subrange(i as int, i + needle.len()) =~= needle@);
    true
}

/// The first index at or after `i` at which `needle` occurs in `hay`.
pub open spec fn first_occ(hay: Seq<char>, needle: Seq<char>, i: int) -> Option<int>
    decreases hay.len() + 1 - i,
    when 0 <= i
{
    if i + needle.len() > hay.len() {
        None
    } else if occurs_at(hay, needle, i) {
        Some(i)
    } else {
        first_occ(hay, needle, i + 1)
    }
}

/// The first index at which `needle` occurs in `hay`.
pub fn find_chars(hay: &Vec<char>, needle: &Vec<char>) -> (r: Option<usize>)
    ensures
        r matches Some(i) ==> first_occ(hay@, needle@, 0) == Some(i as int),
        r is None ==> first_occ(hay@, needle@, 0) is None,
        match r {
            Some(i) => occurs_at(hay@, needle@, i as int) && forall|k: int| 0 <= k < i ==> !occurs_at(hay@, needle@, k),
            None => !contains_seq(hay@, needle@),
        },
{
    if needle.len() > hay.len() {
        return None;
    }
    let last = hay.len() - needle.len();
    let mut i: usize = 0;
    while i < last
        invariant
            last + needle.len() == hay.len(),
            i <= last,
            forall|k: int| 0 <= k < i ==> !occurs_at(hay@, needle@, k),
            first_occ(hay@, needle@, 0) == first_occ(hay@, needle@, i as int),
        decreases last - i,
    {
        if matches_at(hay, needle, i) {
            return Some(i);
        }
        i += 1;
    }
    if matches_at(hay, needle, last) {
        return Some(last);
    }
    assert(first_occ(hay@, needle@, last + 1) is None);
    assert forall|k: int| !occurs_at(hay@, needle@, k) by {
        if 0 <= k < i {
        }
    }
    None
}

/// The script-based guess: Hindi at the first Devanagari character, `Other`
/// at the first Cyrillic one, whichever comes first.
pub open spec fn script_lang(s: Seq<char>) -> Option<Lang>
    decreases s.len(),
{
    if s.len() == 0 {
        None
    } else if 0x0900 <= (s[0] as u32) <= 0x097F {
        Some(Lang::Hi)
    } else if 0x0400 <= (s[0] as u32) <= 0x04FF {
        Some(Lang::Other)
    } else {
        script_lang(s.drop_first())
    }
}

/// What `detect_language` returns: the script-based guess if there is one,
/// otherwise Spanish when the lowercased text contains " el " or " la ",
/// otherwise English.
pub open spec fn language_of(s: Seq<char>) -> Lang {
    match script_lang(s) {
        Some(l) => l,
        None => if contains_seq(unicode_str_lowercase(s), seq![' ', 'e', 'l', ' '])
            || contains_seq(unicode_str_lowercase(s), seq![' ', 'l', 'a', ' ']) {
            Lang::Es
        } else {
            Lang::En
        },
    }
}

/// Guesses the language of `text` (see `language_of`).
pub fn detect_language(text: &str) -> (r: Lang)
    ensures
        r == language_of(text@),
{
    let v = str_chars(text);
    let mut i: usize = 0;
    assert(v@.subrange(0, v@.len() as int) =~= v@);
    while i < v.len()
        invariant
            i <= v.len(),
            v@ == text@,
            script_lang(v@) == script_lang(v@.subrange(i as int, v@.len() as int)),
        decreases v.len() - i,
    {
        let c = v[i] as u32;
        assert(v@.subrange(i as int, v@.len() as int)[0] == v@[i as int]);
        if 0x0900 <= c && c <= 0x097F {
            return Lang::Hi;
        }
        if 0x0400 <= c && c <= 0x04FF {
            return Lang::Other;
        }
        assert(v@.subrange(i as int, v@.len() as int).drop_first() =~= v@.subrange(i + 1, v@.len() as int));
        i += 1;
    }
    let lower = str_to_lowercase(text);
    let lv = str_chars(lower.as_str());
    let el = vec![' ', 'e', 'l', ' '];
    let la = vec![' ', 'l', 'a', ' '];
    assert(el@ =~= seq![' ', 'e', 'l', ' ']);
    assert(la@ =~= seq![' ', 'l', 'a', ' ']);
    if find_chars(&lv, &el).is_some() || find_chars(&lv, &la).is_some() {
        Lang::Es
    } else {
        Lang::En
    }
}

// ---------------------------------------------------------------------------
// Highlighting and snippets

/// ASCII letter or digit.
pub open spec fn ascii_alnum(c: char) -> bool {
    ('a' <= c && c <= 'z') || ('A' <= c && c <= 'Z') || ('0' <= c && c <= '9')
}

/// The ASCII letters and digits of `s`, in order.
pub open spec fn keep_ascii_alnum(s: Seq<char>) -> Seq<char>
    decreases s.len(),
{
    if s.len() == 0 {
        Seq::empty()
    } else if ascii_alnum(s.last()) {
        keep_ascii_alnum(s.drop_last()).push(s.last())
    } else {
        keep_ascii_alnum(s.drop_last())
    }
}

/// A word, in brackets when its lowercased ASCII letters and digits form one of `toks`.
pub open spec fn highlight_word(w: Seq<char>, toks: Seq<Seq<char>>) -> Seq<char> {
    if toks.contains(keep_ascii_alnum(unicode_str_lowercase(w))) {
        seq!['['] + w + seq![']']
    } else {
        w
    }
}

/// The highlighted words, each followed by a space.
pub open spec fn highlight_pass(ws: Seq<Seq<char>>, toks: Seq<Seq<char>>) -> Seq<char>
    decreases ws.len(),
{
    if ws.len() == 0 {
        Seq::empty()
    } else {
        highlight_pass(ws.drop_last(), toks) + highlight_word(ws.last(), toks) + seq![' ']
    }
}

/// What `highlight_terms` returns: the words of `text` joined by single
/// spaces, with the words that match a token put in brackets.
pub open spec fn highlighted(text: Seq<char>, toks: Seq<Seq<char>>) -> Seq<char> {
    trim(highlight_pass(words(text), toks))
}

fn keep_ascii_alnum_chars(v: &Vec<char>) -> (r: Vec<char>)
    ensures
        r@ == keep_ascii_alnum(v@),
{
    let mut out: Vec<char> = Vec::new();
    let mut i: usize = 0;
    while i < v.len()
        invariant
            i <= v.len(),
            out@ == keep_ascii_alnum(v@.take(i as int)),
        decreases v.len() - i,
    {
        let c = v[i];
        assert(v@.take(i + 1).drop_last() =~= v@.take(i as int));
        assert(v@.take(i + 1).last() == c);
        if ('a' <= c && c <= 'z') || ('A' <= c && c <= 'Z') || ('0' <= c && c <= '9') {
            out.push(c);
        }
        i += 1;
    }
    assert(v@.take(v@.len() as int) =~= v@);
    out
}

fn strings_contain(list: &[String], s: &String) -> (r: bool)
    ensures
        r == string_views(list@).contains(s@),
{
    let mut i: usize = 0;
    while i < list.len()
        invariant
            i <= list.len(),
            forall|k: int| 0 <= k < i ==> list@[k]@ != s@,
        decreases list.len() - i,
    {
        if list[i] == *s {
            assert(string_views(list@)[i as int] == s@);
            return true;
        }
        i += 1;
    }
    assert(!string_views(list@).contains(s@)) by {
        if string_views(list@).contains(s@) {
            let k = choose|k: int| 0 <= k < string_views(list@).len() && string_views(list@)[k] == s@;
            assert(list@[k]@ == s@);
        }
    }
    false
}

/// `highlight_terms` on characters.
pub fn highlight_chars(text: &Vec<char>, tokens: &[String]) -> (r: Vec<char>)
    ensures
        r@ == highlighted(text@, string_views(tokens@)),
{
    let ws = split_whitespace(text);
    let ghost toks = string_views(tokens@);
    let mut out: Vec<char> = Vec::new();
    let mut i: usize = 0;
    while i < ws.len()
        invariant
            i <= ws.len(),
            toks == string_views(tokens@),
            out@ == highlight_pass(char_words(ws@).take(i as int), toks),
        decreases ws.len() - i,
    {
        assert(char_words(ws@).take(i + 1).drop_last() =~= char_words(ws@).take(i as int));
        let w = &ws[i];
        let ws_str = string_from_chars(w);
        let lower = str_to_lowercase(ws_str.as_str());
        let lower_chars = str_chars(lower.as_str());
        let clean_chars = keep_ascii_alnum_chars(&lower_chars);
        let clean = string_from_chars(&clean_chars);
        let ghost before = out@;
        if strings_contain(tokens, &clean) {
            out.push('[');
            extend_chars(&mut out, w);
            out.push(']');
            assert(out@ =~= before + (seq!['['] + w@ + seq![']']));
        } else {
            extend_chars(&mut out, w);
        }
        out.push(' ');
        assert(out@ =~= before + highlight_word(w@, toks) + seq![' ']);
        i += 1;
    }
    assert(char_words(ws@).take(ws@.len() as int) =~= char_words(ws@));
    trim_chars(&out)
}

/// Joins the words of `text` by single spaces, putting in brackets each word
/// whose lowercased ASCII letters and digits form one of `tokens`.
pub fn highlight_terms(text: &str, tokens: &[String]) -> (r: String)
    ensures
        r@ == highlighted(text@, string_views(tokens@)),
{
    let v = str_chars(text);
    let h = highlight_chars(&v, tokens);
    string_from_chars(&h)
}

/// Number of bytes of the UTF-8 encoding of `c`.
pub open spec fn utf8_width(c: char) -> nat {
    let u = c as u32;
    if u < 0x80 {
        1
    } else if u < 0x800 {
        2
    } else if u < 0x10000 {
        3
    } else {
        4
    }
}

/// Number of bytes of the UTF-8 encoding of `s` (what `str::len` returns).
pub open spec fn byte_len(s: Seq<char>) -> nat
    decreases s.len(),
{
    if s.len() == 0 {
        0
    } else {
        byte_len(s.drop_last()) + utf8_width(s.last())
    }
}

/// The byte length of a character sequence is the length of its UTF-8
/// encoding.
pub proof fn lemma_byte_len_encode(s: Seq<char>)
    ensures
        vstd::utf8::encode_utf8(s).len() == byte_len(s),
    decreases s.len(),
{
    if s.len() > 0 {
        lemma_byte_len_encode(s.drop_first());
        lemma_byte_len_first(s);
        let c = s[0];
        vstd::utf8::char_is_scalar(c);
        assert(vstd::utf8::encode_scalar(c as u32).len() == utf8_width(c));
    }
}

/// The byte length splits off the first character.
proof fn lemma_byte_len_first(s: Seq<char>)
    requires
        s.len() > 0,
    ensures
        byte_len(s) == utf8_width(s[0]) + byte_len(s.drop_first()),
    decreases s.len(),
{
    if s.len() > 1 {
        lemma_byte_len_first(s.drop_last());
        assert(s.drop_last().drop_first() =~= s.drop_first().drop_last());
        assert(s.drop_last()[0] == s[0]);
    } else {
        assert(s.drop_first() =~= Seq::<char>::empty());
        assert(s.drop_last() =~= Seq::<char>::empty());
    }
}

pub proof fn lemma_byte_len_strict(s: Seq<char>, a: int, b: int)
    requires
        0 <= a < b <= s.len(),
    ensures
        byte_len(s.take(a)) < byte_len(s.take(b)),
    decreases b - a,
{
    assert(s.take(b).drop_last() =~= s.take(b - 1));
    if a < b - 1 {
        lemma_byte_len_strict(s, a, b - 1);
    }
}

/// The character index at which byte offset `b` of `s` starts, if `b` is
/// a character boundary.
pub open spec fn char_index_of_byte(s: Seq<char>, b: int) -> Option<int> {
    if exists|k: int| 0 <= k <= s.len() && byte_len(s.take(k)) == b {
        Some(choose|k: int| 0 <= k <= s.len() && byte_len(s.take(k)) == b)
    } else {
        None
    }
}

/// The first token that occurs in `lower`, and where it first occurs.
pub open spec fn hit_start(lower: Seq<char>, toks: Seq<Seq<char>>) -> Option<int>
    decreases toks.len(),
{
    if toks.len() == 0 {
        None
    } else {
        match first_occ(lower, toks[0], 0) {
            Some(k) => Some(k),
            None => hit_start(lower, toks.drop_first()),
        }
    }
}

proof fn lemma_first_occ_bound(hay: Seq<char>, needle: Seq<char>, i: int)
    requires
        0 <= i,
    ensures
        first_occ(hay, needle, i) matches Some(k) ==> i <= k && occurs_at(hay, needle, k),
    decreases hay.len() + 1 - i,
{
    if i + needle.len() <= hay.len() && !occurs_at(hay, needle, i) {
        lemma_first_occ_bound(hay, needle, i + 1);
    }
}

proof fn lemma_hit_start_bound(lower: Seq<char>, toks: Seq<Seq<char>>)
    ensures
        hit_start(lower, toks) matches Some(k) ==> 0 <= k <= lower.len(),
    decreases toks.len(),
{
    if toks.len() > 0 {
        lemma_first_occ_bound(lower, toks[0], 0);
        lemma_hit_start_bound(lower, toks.drop_first());
    }
}

/// Byte offset at which the snippet of a long text starts: forty bytes
/// before the first occurrence, in the lowercased text, of the first token
/// that occurs there (or 0).
pub open spec fn snippet_start(text: Seq<char>, toks: Seq<Seq<char>>) -> int {
    let lower = unicode_str_lowercase(text);
    match hit_start(lower, toks) {
        Some(k) => {
            let p = byte_len(lower.take(k)) as int;
            if p >= 40 {
                p - 40
            } else {
                0
            }
        },
        None => 0,
    }
}

/// Byte offset at which the snippet of a long text ends.
pub open spec fn snippet_end(text: Seq<char>, toks: Seq<Seq<char>>, max_len: int) -> int {
    let s = snippet_start(text, toks);
    if s + max_len < byte_len(text) {
        s + max_len
    } else {
        byte_len(text) as int
    }
}

/// The inputs on which `make_snippet` does not panic: the text is short
/// enough, or the byte window it cuts lies on character boundaries of the
/// text; and the byte lengths involved fit in `usize`.
pub open spec fn snippet_ok(text: Seq<char>, toks: Seq<Seq<char>>, max_len: usize) -> bool {
    &&& byte_len(text) <= usize::MAX
    &&& byte_len(unicode_str_lowercase(text)) <= usize::MAX
    &&& (byte_len(text) <= max_len || {
        &&& snippet_start(text, toks) <= byte_len(text)
        &&& char_index_of_byte(text, snippet_start(text, toks)) is Some
        &&& char_index_of_byte(text, snippet_end(text, toks, max_len as int)) is Some
    })
}

/// What `make_snippet` returns: the highlighted text if it is at most
/// `max_len` bytes long, otherwise the highlighted, trimmed byte window
/// `snippet_start .. snippet_end` of it.
pub open spec fn snippet(text: Seq<char>, toks: Seq<Seq<char>>, max_len: usize) -> Seq<char> {
    if byte_len(text) <= max_len {
        highlighted(text, toks)
    } else {
        let cs = char_index_of_byte(text, snippet_start(text, toks)).unwrap();
        let ce = char_index_of_byte(text, snippet_end(text, toks, max_len as int)).unwrap();
        highlighted(trim(text.subrange(cs, ce)), toks)
    }
}

/// The number of bytes of the UTF-8 encoding of `v`, if it fits in a `usize`.
pub fn utf8_len_checked(v: &Vec<char>) -> (r: Option<usize>)
    ensures
        match r {
            Some(n) => n == byte_len(v@),
            None => byte_len(v@) > usize::MAX,
        },
{
    match byte_offsets(v) {
        Some(o) => {
            assert(v@.take(v@.len() as int) =~= v@);
            Some(o[v.len()])
        },
        None => None,
    }
}

/// Byte offsets of every character boundary of `v`: entry `k` is the byte
/// length of `v[..k]`.
fn byte_offsets(v: &Vec<char>) -> (r: Option<Vec<usize>>)
    ensures
        match r {
            Some(o) => o.len() == v.len() + 1 && byte_len(v@) <= usize::MAX
                && forall|k: int| 0 <= k <= v.len() ==> o@[k] == byte_len(v@.take(k)),
            None => byte_len(v@) > usize::MAX,
        },
{
    let mut o: Vec<usize> = Vec::new();
    o.push(0);
    assert(v@.take(0) =~= Seq::<char>::empty());
    let mut acc: usize = 0;
    let mut i: usize = 0;
    while i < v.len()
        invariant
            i <= v.len(),
            o.len() == i + 1,
            acc == byte_len(v@.take(i as int)),
            forall|k: int| 0 <= k <= i ==> o@[k] == byte_len(v@.take(k)),
        decreases v.len() - i,
    {
        let u = v[i] as u32;
        let w: usize = if u < 0x80 {
            1
        } else if u < 0x800 {
            2
        } else if u < 0x10000 {
            3
        } else {
            4
        };
        assert(v@.take(i + 1).drop_last() =~= v@.take(i as int));
        assert(v@.take(i + 1).last() == v@[i as int]);
        if acc > usize::MAX - w {
            proof {
                if i + 1 < v.len() {
                    lemma_byte_len_strict(v@, i + 1, v@.len() as int);
                }
                assert(v@.take(v@.len() as int) =~= v@);
            }
            return None;
        }
        acc = acc + w;
        o.push(acc);
        i += 1;
    }
    assert(v@.take(v@.len() as int) =~= v@);
    Some(o)
}

/// The index `k` with `o[k] == b`, for offsets as `byte_offsets` returns them.
fn index_of_offset(v: &Vec<char>, o: &Vec<usize>, b: usize) -> (r: Option<usize>)
    requires
        o.len() == v.len() + 1,
        forall|k: int| 0 <= k <= v.len() ==> o@[k] == byte_len(v@.take(k)),
    ensures
        match r {
            Some(k) => char_index_of_byte(v@, b as int) == Some(k as int),
            None => char_index_of_byte(v@, b as int) is None,
        },
{
    let mut k: usize = 0;
    while k < o.len()
        invariant
            k <= o.len(),
            o.len() == v.len() + 1,
            forall|j: int| 0 <= j <= v.len() ==> o@[j] == byte_len(v@.take(j)),
            forall|j: int| 0 <= j < k ==> byte_len(v@.take(j)) != b,
        decreases o.len() - k,
    {
        if o[k] == b {
            proof {
                let c = choose|c: int| 0 <= c <= v@.len() && byte_len(v@.take(c)) == b;
                if c < k {
                    lemma_byte_len_strict(v@, c, k as int);
                } else if c > k {
                    lemma_byte_len_strict(v@, k as int, c);
                }
            }
            return Some(k);
        }
        k += 1;
    }
    None
}

/// The first token of `tokens` that occurs in `lower` and its first
/// character index there.
fn first_hit(lower: &Vec<char>, tokens: &[String]) -> (r: Option<usize>)
    ensures
        r matches Some(k) ==> hit_start(lower@, string_views(tokens@)) == Some(k as int),
        r is None ==> hit_start(lower@, string_views(tokens@)) is None,
{
    let ghost toks = string_views(tokens@);
    let mut j: usize = 0;
    assert(toks.subrange(0, toks.len() as int) =~= toks);
    while j < tokens.len()
        invariant
            j <= tokens.len(),
            toks == string_views(tokens@),
            hit_start(lower@, toks) == hit_start(lower@, toks.subrange(j as int, toks.len() as int)),
        decreases tokens.len() - j,
    {
        let ghost rest = toks.subrange(j as int, toks.len() as int);
        assert(rest[0] == tokens@[j as int]@);
        assert(rest.drop_first() =~= toks.subrange(j + 1, toks.len() as int));
        let t = str_chars(tokens[j].as_str());
        match find_chars(lower, &t) {
            Some(k) => {
                return Some(k);
            },
            None => {},
        }
        j += 1;
    }
    None
}

/// The byte window of a long text and its character bounds, or `None` when
/// `make_snippet` would panic on it.
fn snippet_window(v: &Vec<char>, tokens: &[String], max_len: usize) -> (r: Option<(usize, usize)>)
    ensures
        match r {
            Some((cs, ce)) => snippet_ok(v@, string_views(tokens@), max_len) && byte_len(v@) > max_len
                && char_index_of_byte(v@, snippet_start(v@, string_views(tokens@))) == Some(cs as int)
                && char_index_of_byte(v@, snippet_end(v@, string_views(tokens@), max_len as int)) == Some(ce as int),
            None => !snippet_ok(v@, string_views(tokens@), max_len) || byte_len(v@) <= max_len,
        },
{
    let ghost toks = string_views(tokens@);
    let offs = match byte_offsets(v) {
        Some(o) => o,
        None => return None,
    };
    let text_len = offs[v.len()];
    assert(v@.take(v@.len() as int) =~= v@);
    if text_len <= max_len {
        return None;
    }
    let s = string_from_chars(v);
    let lower = str_to_lowercase(s.as_str());
    let lv = str_chars(lower.as_str());
    let loffs = match byte_offsets(&lv) {
        Some(o) => o,
        None => return None,
    };
    proof {
        lemma_hit_start_bound(lv@, toks);
    }
    let start: usize = match first_hit(&lv, tokens) {
        Some(k) => {
            let p = loffs[k];
            if p >= 40 {
                p - 40
            } else {
                0
            }
        },
        None => 0,
    };
    assert(start == snippet_start(v@, toks));
    if start > text_len {
        return None;
    }
    let end: usize = if max_len < text_len - start {
        start + max_len
    } else {
        text_len
    };
    assert(end == snippet_end(v@, toks, max_len as int));
    let cs = match index_of_offset(v, &offs, start) {
        Some(k) => k,
        None => return None,
    };
    let ce = match index_of_offset(v, &offs, end) {
        Some(k) => k,
        None => return None,
    };
    Some((cs, ce))
}

fn snippet_chars(v: &Vec<char>, tokens: &[String], max_len: usize) -> (r: Option<Vec<char>>)
    ensures
        match r {
            Some(out) => snippet_ok(v@, string_views(tokens@), max_len)
                && out@ == snippet(v@, string_views(tokens@), max_len),
            None => !snippet_ok(v@, string_views(tokens@), max_len),
        },
{
    let ghost toks = string_views(tokens@);
    match snippet_window(v, tokens, max_len) {
        Some((cs, ce)) => {
            proof {
                let b = snippet_start(v@, toks);
                let k = choose|k: int| 0 <= k <= v@.len() && byte_len(v@.take(k)) == b;
                let e = snippet_end(v@, toks, max_len as int);
                let k2 = choose|k: int| 0 <= k <= v@.len() && byte_len(v@.take(k)) == e;
                if k > k2 {
                    lemma_byte_len_strict(v@, k2, k);
                }
            }
            let mut piece: Vec<char> = Vec::new();
            let mut i: usize = cs;
            while i < ce
                invariant
                    cs <= i <= ce <= v.len(),
                    piece@ == v@.subrange(cs as int, i as int),
                decreases ce - i,
            {
                piece.push(v[i]);
                assert(v@.subrange(cs as int, i + 1) =~= v@.subrange(cs as int, i as int).push(v@[i as int]));
                i += 1;
            }
            let t = trim_chars(&piece);
            Some(highlight_chars(&t, tokens))
        },
        None => {
            match byte_offsets(v) {
                Some(offs) => {
                    assert(v@.take(v@.len() as int) =~= v@);
                    if offs[v.len()] <= max_len {
                        let s = string_from_chars(v);
                        let lower = str_to_lowercase(s.as_str());
                        let lv = str_chars(lower.as_str());
                        match byte_offsets(&lv) {
                            Some(_) => Some(highlight_chars(v, tokens)),
                            None => None,
                        }
                    } else {
                        None
                    }
                },
                None => None,
            }
        },
    }
}

/// A display snippet of `text` around the first query token it contains,
/// with the matching words highlighted (see `snippet`).
pub fn make_snippet(text: &str, tokens: &[String], max_len: usize) -> (r: String)
    requires
        snippet_ok(text@, string_views(tokens@), max_len),
    ensures
        r@ == snippet(text@, string_views(tokens@), max_len),
{
    let v = str_chars(text);
    match snippet_chars(&v, tokens, max_len) {
        Some(out) => string_from_chars(&out),
        None => String::new(),
    }
}

/// `make_snippet` on the inputs on which it does not panic; `None` on the others.
pub fn make_snippet_checked(text: &str, tokens: &[String], max_len: usize) -> (r: Option<String>)
    ensures
        match r {
            Some(s) => snippet_ok(text@, string_views(tokens@), max_len)
                && s@ == snippet(text@, string_views(tokens@), max_len),
            None => !snippet_ok(text@, string_views(tokens@), max_len),
        },
{
    let v = str_chars(text);
    if snippet_chars(&v, tokens, max_len).is_some() {
        Some(make_snippet(text, tokens, max_len))
    } else {
        None
    }
}

} // verus!
