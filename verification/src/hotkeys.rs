use vstd::prelude::*;
use vstd::string::*;

use crate::listing::{first_index, lemma_index_from_range, position_of, Listed};
use crate::midi::is_active_bank;
use crate::models::{AppConfig, Pad};
use crate::text::{owned, push_char, text_is};

verus! {

/// What `str::to_uppercase` returns for a string: its upper-case form by the
/// Unicode case mappings (which may change its length).
pub uninterp spec fn spec_to_uppercase(s: Seq<char>) -> Seq<char>;

/// What `str::to_lowercase` returns for a string: its lower-case form by the
/// Unicode case mappings.
pub uninterp spec fn spec_to_lowercase(s: Seq<char>) -> Seq<char>;

/// The characters of the Unicode White_Space property, which `str::trim`
/// strips.
pub open spec fn is_white_space(c: char) -> bool {
    ('\u{9}' <= c && c <= '\u{d}') || c == ' ' || c == '\u{85}' || c == '\u{a0}' || c == '\u{1680}' || ('\u{2000}'
        <= c && c <= '\u{200a}') || c == '\u{2028}' || c == '\u{2029}' || c == '\u{202f}' || c == '\u{205f}' || c
        == '\u{3000}'
}

/// The string without its leading white space.
pub open spec fn trim_start(s: Seq<char>) -> Seq<char>
    decreases s.len(),
{
    if s.len() > 0 && is_white_space(s[0]) {
        trim_start(s.drop_first())
    } else {
        s
    }
}

/// The string without its trailing white space.
pub open spec fn trim_end(s: Seq<char>) -> Seq<char>
    decreases s.len(),
{
    if s.len() > 0 && is_white_space(s.last()) {
        trim_end(s.drop_last())
    } else {
        s
    }
}

/// What `str::trim` returns: the string without its leading and trailing
/// white space.
pub open spec fn spec_trim(s: Seq<char>) -> Seq<char> {
    trim_end(trim_start(s))
}

/// Calls `str::to_uppercase`; its result is named, not described.
#[verifier::external_body]
fn to_uppercase(s: &str) -> (r: String)
    ensures
        r@ == spec_to_uppercase(s@),
{
    s.to_uppercase()
}

/// Calls `str::to_lowercase`; its result is named, not described.
#[verifier::external_body]
fn to_lowercase(s: &str) -> (r: String)
    ensures
        r@ == spec_to_lowercase(s@),
{
    s.to_lowercase()
}

fn white_space(c: char) -> (r: bool)
    ensures
        r == is_white_space(c),
{
    ('\u{9}' <= c && c <= '\u{d}') || c == ' ' || c == '\u{85}' || c == '\u{a0}' || c == '\u{1680}' || ('\u{2000}'
        <= c && c <= '\u{200a}') || c == '\u{2028}' || c == '\u{2029}' || c == '\u{202f}' || c == '\u{205f}' || c
        == '\u{3000}'
}

/// The string without its leading and trailing white space, as `str::trim`
/// gives it.
fn trimmed(s: &str) -> (r: String)
    ensures
        r@ == spec_trim(s@),
{
    let n = s.unicode_len();
    let mut i: usize = 0;
    assert(s@.subrange(0, n as int) =~= s@);
    while i < n && white_space(s.get_char(i))
        invariant
            i <= n,
            n == s@.len(),
            trim_start(s@) == trim_start(s@.subrange(i as int, n as int)),
        decreases n - i,
    {
        assert(s@.subrange(i as int, n as int).drop_first() =~= s@.subrange(i + 1, n as int));
        i = i + 1;
    }
    assert(trim_start(s@) == s@.subrange(i as int, n as int)) by {
        if i < n {
            assert(s@.subrange(i as int, n as int)[0] == s@[i as int]);
        } else {
            assert(s@.subrange(i as int, n as int).len() == 0);
        }
    }
    let mut j: usize = n;
    while j > i && white_space(s.get_char(j - 1))
        invariant
            i <= j <= n,
            n == s@.len(),
            trim_end(s@.subrange(i as int, n as int)) == trim_end(s@.subrange(i as int, j as int)),
        decreases j,
    {
        assert(s@.subrange(i as int, j as int).drop_last() =~= s@.subrange(i as int, j - 1));
        j = j - 1;
    }
    assert(trim_end(s@.subrange(i as int, n as int)) == s@.subrange(i as int, j as int)) by {
        if j > i {
            assert(s@.subrange(i as int, j as int).last() == s@[j - 1]);
        } else {
            assert(s@.subrange(i as int, j as int).len() == 0);
        }
    }
    owned(s.substring_char(i, j))
}

/// A key that a pad can be bound to: 'A' to 'Z' or '0' to '9'.
pub open spec fn is_bindable(c: char) -> bool {
    ('A' <= c && c <= 'Z') || ('0' <= c && c <= '9')
}

/// The key that an upper-cased key name designates: a single bindable character.
pub open spec fn key_of_upper(u: Seq<char>) -> Option<char> {
    if u.len() == 1 && is_bindable(u[0]) {
        Some(u[0])
    } else {
        None
    }
}

/// The key that a key name designates, case-insensitively.
pub open spec fn key_code(key: Seq<char>) -> Option<char> {
    key_of_upper(spec_to_uppercase(key))
}

/// The key designated by an already upper-cased key name: exactly one
/// character, a letter 'A'..'Z' or a digit '0'..'9'.
pub fn key_from_upper(upper: &str) -> (r: Option<char>)
    ensures
        r == key_of_upper(upper@),
{
    if upper.unicode_len() != 1 {
        return None;
    }
    let c = upper.get_char(0);
    if ('A' <= c && c <= 'Z') || ('0' <= c && c <= '9') {
        Some(c)
    } else {
        None
    }
}

/// Translates a bindable key name ("A".."Z", "0".."9", any case) to the key
/// it designates; anything else gives `None`.
pub fn code_for_key(key: &str) -> (r: Option<char>)
    ensures
        r == key_code(key@),
        r matches Some(c) ==> ('A' <= c && c <= 'Z') || ('0' <= c && c <= '9'),
{
    let upper = to_uppercase(key);
    key_from_upper(upper.as_str())
}

/// The parts of `s` between the separators `c`, as `str::split` gives them:
/// there is always one more part than there are separators.
pub open spec fn split_on(s: Seq<char>, c: char) -> Seq<Seq<char>>
    decreases s.len(),
{
    if s.len() == 0 {
        seq![Seq::empty()]
    } else {
        let p = split_on(s.drop_last(), c);
        if s.last() == c {
            p.push(Seq::empty())
        } else {
            p.update(p.len() - 1, p.last().push(s.last()))
        }
    }
}

proof fn lemma_split_nonempty(s: Seq<char>, c: char)
    ensures
        split_on(s, c).len() >= 1,
    decreases s.len(),
{
    if s.len() > 0 {
        lemma_split_nonempty(s.drop_last(), c);
    }
}

pub open spec fn strings_view(s: Seq<String>) -> Seq<Seq<char>> {
    s.map_values(|x: String| x@)
}

/// Splits `s` at every `c`.
pub fn split_text(s: &str, c: char) -> (parts: Vec<String>)
    ensures
        strings_view(parts@) == split_on(s@, c),
{
    let n = s.unicode_len();
    let mut parts: Vec<String> = Vec::new();
    let mut cur = String::new();
    let mut i: usize = 0;
    assert(s@.take(0) =~= Seq::<char>::empty());
    while i < n
        invariant
            n == s@.len(),
            i <= n,
            strings_view(parts@).push(cur@) == split_on(s@.take(i as int), c),
        decreases n - i,
    {
        let ch = s.get_char(i);
        let ghost before = split_on(s@.take(i as int), c);
        proof {
            lemma_split_nonempty(s@.take(i as int), c);
            assert(s@.take(i + 1).drop_last() =~= s@.take(i as int));
            assert(s@.take(i + 1).last() == ch);
        }
        if ch == c {
            parts.push(cur);
            cur = String::new();
            assert(strings_view(parts@).push(cur@) =~= before.push(Seq::empty()));
        } else {
            let ghost old_parts = strings_view(parts@);
            cur = push_char(cur, ch);
            assert(strings_view(parts@).push(cur@) =~= before.update(before.len() - 1, before.last().push(ch)));
        }
        i = i + 1;
    }
    assert(s@.take(n as int) =~= s@);
    parts.push(cur);
    parts
}

/// The modifiers of a global hotkey.
#[derive(Debug, Clone, Copy, PartialEq, Eq, Structural)]
pub struct ModifierSet {
    pub ctrl: bool,
    pub alt: bool,
    pub shift: bool,
    pub super_key: bool,
}

pub open spec fn names_ctrl(t: Seq<char>) -> bool {
    t == "ctrl"@ || t == "control"@
}

pub open spec fn names_alt(t: Seq<char>) -> bool {
    t == "alt"@ || t == "option"@ || t == "opt"@
}

pub open spec fn names_shift(t: Seq<char>) -> bool {
    t == "shift"@
}

pub open spec fn names_super(t: Seq<char>) -> bool {
    t == "cmd"@ || t == "super"@ || t == "meta"@ || t == "command"@
}

/// Some token passes `p`.
pub open spec fn any_token(toks: Seq<Seq<char>>, p: spec_fn(Seq<char>) -> bool) -> bool {
    exists|i: int| 0 <= i < toks.len() && p(#[trigger] toks[i])
}

pub open spec fn ctrl_names() -> spec_fn(Seq<char>) -> bool {
    |t: Seq<char>| names_ctrl(t)
}

pub open spec fn alt_names() -> spec_fn(Seq<char>) -> bool {
    |t: Seq<char>| names_alt(t)
}

pub open spec fn shift_names() -> spec_fn(Seq<char>) -> bool {
    |t: Seq<char>| names_shift(t)
}

pub open spec fn super_names() -> spec_fn(Seq<char>) -> bool {
    |t: Seq<char>| names_super(t)
}

/// The modifiers that some normalized tokens name; unknown tokens name none.
pub open spec fn modifiers_of_tokens(toks: Seq<Seq<char>>) -> ModifierSet {
    ModifierSet {
        ctrl: any_token(toks, ctrl_names()),
        alt: any_token(toks, alt_names()),
        shift: any_token(toks, shift_names()),
        super_key: any_token(toks, super_names()),
    }
}

/// One more token passes `p` exactly when it does or an earlier one did.
proof fn lemma_any_token_push(pre: Seq<Seq<char>>, t: Seq<char>, p: spec_fn(Seq<char>) -> bool)
    ensures
        any_token(pre.push(t), p) == (any_token(pre, p) || p(t)),
{
    let next = pre.push(t);
    if p(t) {
        assert(p(next[pre.len() as int]));
    }
    if any_token(pre, p) {
        let i = choose|i: int| 0 <= i < pre.len() && p(#[trigger] pre[i]);
        assert(next[i] == pre[i]);
    }
    if any_token(next, p) {
        let i = choose|i: int| 0 <= i < next.len() && p(#[trigger] next[i]);
        if i < pre.len() {
            assert(pre[i] == next[i]);
        }
    }
}

/// A token of a modifier setting, trimmed and lower-cased.
pub open spec fn normalized(t: Seq<char>) -> Seq<char> {
    spec_to_lowercase(spec_trim(t))
}

/// The modifiers that a setting such as "Ctrl+Alt" names.
pub open spec fn modifiers_spec(s: Seq<char>) -> ModifierSet {
    modifiers_of_tokens(split_on(s, '+').map_values(|t: Seq<char>| normalized(t)))
}

/// The modifier words: a normalized token turns on Ctrl when it is "ctrl" or
/// "control", Alt when it is "alt", "option" or "opt", Shift when it is
/// "shift", and Super (Command) when it is "cmd", "super", "meta" or
/// "command"; a set of tokens turns on a modifier exactly when one of its
/// tokens does, and any other token turns on nothing.
pub proof fn lemma_modifier_words(toks: Seq<Seq<char>>)
    ensures
        modifiers_of_tokens(toks).ctrl <==> exists|i: int|
            0 <= i < toks.len() && (#[trigger] toks[i] == "ctrl"@ || toks[i] == "control"@),
        modifiers_of_tokens(toks).alt <==> exists|i: int|
            0 <= i < toks.len() && (#[trigger] toks[i] == "alt"@ || toks[i] == "option"@ || toks[i] == "opt"@),
        modifiers_of_tokens(toks).shift <==> exists|i: int| 0 <= i < toks.len() && #[trigger] toks[i] == "shift"@,
        modifiers_of_tokens(toks).super_key <==> exists|i: int|
            0 <= i < toks.len() && (#[trigger] toks[i] == "cmd"@ || toks[i] == "super"@ || toks[i] == "meta"@
                || toks[i] == "command"@),
{
    let m = modifiers_of_tokens(toks);
    if m.ctrl {
        let i = choose|i: int| 0 <= i < toks.len() && (ctrl_names())(#[trigger] toks[i]);
        assert(toks[i] == "ctrl"@ || toks[i] == "control"@);
    }
    if exists|i: int| 0 <= i < toks.len() && (#[trigger] toks[i] == "ctrl"@ || toks[i] == "control"@) {
        let i = choose|i: int| 0 <= i < toks.len() && (#[trigger] toks[i] == "ctrl"@ || toks[i] == "control"@);
        assert((ctrl_names())(toks[i]));
    }
    if m.alt {
        let i = choose|i: int| 0 <= i < toks.len() && (alt_names())(#[trigger] toks[i]);
        assert(toks[i] == "alt"@ || toks[i] == "option"@ || toks[i] == "opt"@);
    }
    if exists|i: int| 0 <= i < toks.len() && (#[trigger] toks[i] == "alt"@ || toks[i] == "option"@ || toks[i] == "opt"@) {
        let i = choose|i: int|
            0 <= i < toks.len() && (#[trigger] toks[i] == "alt"@ || toks[i] == "option"@ || toks[i] == "opt"@);
        assert((alt_names())(toks[i]));
    }
    if m.shift {
        let i = choose|i: int| 0 <= i < toks.len() && (shift_names())(#[trigger] toks[i]);
        assert(toks[i] == "shift"@);
    }
    if exists|i: int| 0 <= i < toks.len() && #[trigger] toks[i] == "shift"@ {
        let i = choose|i: int| 0 <= i < toks.len() && #[trigger] toks[i] == "shift"@;
        assert((shift_names())(toks[i]));
    }
    if m.super_key {
        let i = choose|i: int| 0 <= i < toks.len() && (super_names())(#[trigger] toks[i]);
        assert(toks[i] == "cmd"@ || toks[i] == "super"@ || toks[i] == "meta"@ || toks[i] == "command"@);
    }
    if exists|i: int|
        0 <= i < toks.len() && (#[trigger] toks[i] == "cmd"@ || toks[i] == "super"@ || toks[i] == "meta"@ || toks[i]
            == "command"@) {
        let i = choose|i: int|
            0 <= i < toks.len() && (#[trigger] toks[i] == "cmd"@ || toks[i] == "super"@ || toks[i] == "meta"@
                || toks[i] == "command"@);
        assert((super_names())(toks[i]));
    }
}

/// The modifiers that already normalized tokens name.
pub fn modifiers_from_tokens(tokens: &Vec<String>) -> (m: ModifierSet)
    ensures
        m == modifiers_of_tokens(strings_view(tokens@)),
        ({
            let toks = strings_view(tokens@);
            &&& m.super_key <==> exists|i: int|
                0 <= i < toks.len() && (#[trigger] toks[i] == "cmd"@ || toks[i] == "super"@ || toks[i] == "meta"@
                    || toks[i] == "command"@)
            &&& m.ctrl <==> exists|i: int| 0 <= i < toks.len() && (#[trigger] toks[i] == "ctrl"@ || toks[i] == "control"@)
            &&& m.alt <==> exists|i: int|
                0 <= i < toks.len() && (#[trigger] toks[i] == "alt"@ || toks[i] == "option"@ || toks[i] == "opt"@)
            &&& m.shift <==> exists|i: int| 0 <= i < toks.len() && #[trigger] toks[i] == "shift"@
        }),
{
    proof {
        lemma_modifier_words(strings_view(tokens@));
    }
    let ghost toks = strings_view(tokens@);
    let mut m = ModifierSet { ctrl: false, alt: false, shift: false, super_key: false };
    let mut k: usize = 0;
    while k < tokens.len()
        invariant
            k <= tokens@.len(),
            toks == strings_view(tokens@),
            m == modifiers_of_tokens(toks.take(k as int)),
        decreases tokens@.len() - k,
    {
        let t = &tokens[k];
        let ghost pre = toks.take(k as int);
        let ghost next = toks.take(k + 1);
        proof {
            assert(next =~= pre.push(t@));
            assert(next[k as int] == t@);
        }
        if text_is(t, "ctrl") || text_is(t, "control") {
            m.ctrl = true;
        }
        if text_is(t, "alt") || text_is(t, "option") || text_is(t, "opt") {
            m.alt = true;
        }
        if text_is(t, "shift") {
            m.shift = true;
        }
        if text_is(t, "cmd") || text_is(t, "super") || text_is(t, "meta") || text_is(t, "command") {
            m.super_key = true;
        }
        proof {
            lemma_any_token_push(pre, t@, ctrl_names());
            lemma_any_token_push(pre, t@, alt_names());
            lemma_any_token_push(pre, t@, shift_names());
            lemma_any_token_push(pre, t@, super_names());
        }
        k = k + 1;
    }
    assert(toks.take(k as int) =~= toks);
    m
}

/// Reads the configurable modifier (by default "Ctrl+Alt"): the parts between
/// '+' are trimmed and lower-cased; "ctrl"/"control", "alt"/"option"/"opt",
/// "shift" and "cmd"/"super"/"meta"/"command" are recognized, and unknown
/// parts are ignored rather than refused.
pub fn modifiers_for(spec: &str) -> (m: ModifierSet)
    ensures
        m == modifiers_spec(spec@),
        ({
            let toks = split_on(spec@, '+').map_values(|t: Seq<char>| normalized(t));
            &&& m.super_key <==> exists|i: int|
                0 <= i < toks.len() && (#[trigger] toks[i] == "cmd"@ || toks[i] == "super"@ || toks[i] == "meta"@
                    || toks[i] == "command"@)
            &&& m.ctrl <==> exists|i: int| 0 <= i < toks.len() && (#[trigger] toks[i] == "ctrl"@ || toks[i] == "control"@)
            &&& m.alt <==> exists|i: int|
                0 <= i < toks.len() && (#[trigger] toks[i] == "alt"@ || toks[i] == "option"@ || toks[i] == "opt"@)
            &&& m.shift <==> exists|i: int| 0 <= i < toks.len() && #[trigger] toks[i] == "shift"@
        }),
{
    proof {
        lemma_modifier_words(split_on(spec@, '+').map_values(|t: Seq<char>| normalized(t)));
    }
    let parts = split_text(spec, '+');
    let mut tokens: Vec<String> = Vec::new();
    let mut k: usize = 0;
    while k < parts.len()
        invariant
            k <= parts@.len(),
            strings_view(tokens@) == strings_view(parts@).take(k as int).map_values(|t: Seq<char>| normalized(t)),
        decreases parts@.len() - k,
    {
        let ghost prev = strings_view(tokens@);
        let t = trimmed(parts[k].as_str());
        let l = to_lowercase(t.as_str());
        assert(l@ == normalized(strings_view(parts@)[k as int]));
        tokens.push(l);
        proof {
            let f = |t: Seq<char>| normalized(t);
            assert(strings_view(tokens@) =~= prev.push(l@));
            assert(strings_view(parts@).take(k + 1).map_values(f) =~= strings_view(parts@).take(k as int).map_values(f).push(f(strings_view(parts@)[k as int])));
        }
        k = k + 1;
    }
    proof {
        assert(strings_view(parts@).take(k as int) =~= strings_view(parts@));
    }
    modifiers_from_tokens(&tokens)
}

/// A global hotkey of a pad of the active bank.
pub struct PadShortcut {
    pub bank_id: String,
    pub pad_id: String,
    pub pad_name: String,
    pub key: char,
}

/// The global hotkeys to register.
pub struct ShortcutPlan {
    pub modifiers: ModifierSet,
    /// The key of the panic button, when one is set and valid.
    pub panic_key: Option<char>,
    /// The pads of the active bank with a valid hotkey, in bank order.
    pub pads: Vec<PadShortcut>,
}

/// The hotkeys of some pads: (pad id, pad name, key) for each pad whose
/// hotkey names a bindable key, in order.
pub open spec fn pad_keys(pads: Seq<Pad>) -> Seq<(Seq<char>, Seq<char>, char)>
    decreases pads.len(),
{
    if pads.len() == 0 {
        Seq::empty()
    } else {
        let p = pad_keys(pads.drop_last());
        let pad = pads.last();
        match pad.hotkey {
            Some(h) => match key_code(h@) {
                Some(c) => p.push((pad.id@, pad.name@, c)),
                None => p,
            },
            None => p,
        }
    }
}

/// The pad hotkeys of the active bank (none when no bank has the active id).
pub open spec fn active_pad_keys(c: AppConfig) -> Seq<(Seq<char>, Seq<char>, char)> {
    let b = first_index(c.banks@, c.active_bank_id@);
    if b < 0 {
        Seq::empty()
    } else {
        pad_keys(c.banks@[b].pads@)
    }
}

/// A pad carries a global hotkey: it has a hotkey that designates the key `c`.
pub open spec fn binds_key(pad: Pad, c: char) -> bool {
    pad.hotkey matches Some(h) && key_code(h@) == Some(c)
}

/// A key that a hotkey designates is a letter 'A'..'Z' or a digit '0'..'9'.
pub proof fn lemma_key_code_is_letter_or_digit(key: Seq<char>)
    ensures
        key_code(key) matches Some(c) ==> ('A' <= c && c <= 'Z') || ('0' <= c && c <= '9'),
{
}

/// Some pad of `pads` is bound to key `k` and has that id and name.
pub open spec fn bound_pad(pads: Seq<Pad>, x: (Seq<char>, Seq<char>, char)) -> bool {
    exists|i: int| 0 <= i < pads.len() && #[trigger] binds_key(pads[i], x.2) && pads[i].id@ == x.0 && pads[i].name@ == x.1
}

/// The hotkeys planned for some pads are exactly those of the pads with a
/// valid key: each planned (id, name, key) is a pad bound to that key, and
/// each pad bound to a key is planned.
pub proof fn lemma_pad_keys_law(pads: Seq<Pad>)
    ensures
        pad_keys(pads).len() <= pads.len(),
        forall|t: int| 0 <= t < pad_keys(pads).len() ==> bound_pad(pads, #[trigger] pad_keys(pads)[t]),
        forall|i: int, c: char|
            0 <= i < pads.len() && #[trigger] binds_key(pads[i], c) ==> pad_keys(pads).contains(
                (pads[i].id@, pads[i].name@, c),
            ),
    decreases pads.len(),
{
    if pads.len() > 0 {
        let w = pads.drop_last();
        lemma_pad_keys_law(w);
        let p = pad_keys(w);
        let last = pads.last();
        let n = pads.len() - 1;
        assert(pads[n] == last);
        assert forall|i: int| 0 <= i < n implies #[trigger] pads[i] == w[i] by {}
        match last.hotkey {
            Some(h) => match key_code(h@) {
                Some(k) => {
                    assert(pad_keys(pads) == p.push((last.id@, last.name@, k)));
                },
                None => {
                    assert(pad_keys(pads) == p);
                },
            },
            None => {
                assert(pad_keys(pads) == p);
            },
        }
        let r = pad_keys(pads);
        assert forall|t: int| 0 <= t < r.len() implies bound_pad(pads, #[trigger] r[t]) by {
            if t < p.len() {
                assert(r[t] == p[t]);
                assert(bound_pad(w, p[t]));
                let i = choose|i: int|
                    0 <= i < w.len() && #[trigger] binds_key(w[i], p[t].2) && w[i].id@ == p[t].0 && w[i].name@ == p[t].1;
                assert(binds_key(pads[i], r[t].2));
            } else {
                assert(binds_key(pads[n], r[t].2));
            }
        }
        assert forall|i: int, c: char| 0 <= i < pads.len() && #[trigger] binds_key(pads[i], c) implies r.contains(
            (pads[i].id@, pads[i].name@, c),
        ) by {
            if i < n {
                assert(binds_key(w[i], c));
                let t = choose|t: int| 0 <= t < p.len() && p[t] == (w[i].id@, w[i].name@, c);
                assert(r[t] == p[t]);
            } else {
                assert(r[r.len() - 1] == (last.id@, last.name@, c));
            }
        }
    }
}

/// Only the active bank's pads get global hotkeys: every planned pad hotkey
/// belongs to a pad of the active bank bound to that key, and every such pad
/// is planned; with no bank holding the active id, none is.
pub proof fn lemma_active_pad_keys_law(c: AppConfig)
    ensures
        forall|t: int|
            #![trigger active_pad_keys(c)[t]]
            0 <= t < active_pad_keys(c).len() ==> exists|j: int, i: int|
                #![trigger c.banks@[j].pads@[i]]
                is_active_bank(c, j) && 0 <= i < c.banks@[j].pads@.len() && binds_key(
                    c.banks@[j].pads@[i],
                    active_pad_keys(c)[t].2,
                ) && c.banks@[j].pads@[i].id@ == active_pad_keys(c)[t].0,
        forall|j: int, i: int, k: char|
            is_active_bank(c, j) && 0 <= i < c.banks@[j].pads@.len() && #[trigger] binds_key(c.banks@[j].pads@[i], k)
                ==> active_pad_keys(c).contains((c.banks@[j].pads@[i].id@, c.banks@[j].pads@[i].name@, k)),
{
    let banks = c.banks@;
    let id = c.active_bank_id@;
    lemma_index_from_range(banks, id, 0);
    let b = first_index(banks, id);
    assert forall|j: int| #[trigger] is_active_bank(c, j) implies j == b by {
        if b == -1 {
            assert(banks[j].key() != id);
        } else if j < b {
            assert(banks[j].key() != id);
        } else if j > b {
            assert(banks[b].id@ != id);
        }
    }
    if b >= 0 {
        assert(is_active_bank(c, b)) by {
            assert forall|i: int| 0 <= i < b implies #[trigger] banks[i].id@ != id by {
                assert(banks[i].key() != id);
            }
        }
        let pads = banks[b].pads@;
        lemma_pad_keys_law(pads);
        assert forall|t: int| #![trigger active_pad_keys(c)[t]] 0 <= t < active_pad_keys(c).len() implies exists|j: int, i: int|
            #![trigger c.banks@[j].pads@[i]]
            is_active_bank(c, j) && 0 <= i < c.banks@[j].pads@.len() && binds_key(
                c.banks@[j].pads@[i],
                active_pad_keys(c)[t].2,
            ) && c.banks@[j].pads@[i].id@ == active_pad_keys(c)[t].0 by {
            assert(bound_pad(pads, pad_keys(pads)[t]));
            let i = choose|i: int|
                0 <= i < pads.len() && #[trigger] binds_key(pads[i], pad_keys(pads)[t].2) && pads[i].id@ == pad_keys(
                    pads,
                )[t].0 && pads[i].name@ == pad_keys(pads)[t].1;
            assert(c.banks@[b].pads@[i] == pads[i]);
        }
        assert forall|j: int, i: int, k: char|
            is_active_bank(c, j) && 0 <= i < c.banks@[j].pads@.len() && #[trigger] binds_key(c.banks@[j].pads@[i], k)
                implies active_pad_keys(c).contains((c.banks@[j].pads@[i].id@, c.banks@[j].pads@[i].name@, k)) by {
            assert(j == b);
            assert(binds_key(pads[i], k));
        }
    }
}

pub open spec fn shortcuts_view(s: Seq<PadShortcut>) -> Seq<(Seq<char>, Seq<char>, char)> {
    s.map_values(|x: PadShortcut| (x.pad_id@, x.pad_name@, x.key))
}

/// Decides which global hotkeys to register for a configuration: none when
/// global hotkeys are off; else, with the configured modifiers, the panic
/// key when it is valid, and each pad of the active bank with a valid key.
/// Hotkeys of other banks are never registered. The caller first removes all
/// earlier registrations.
pub fn plan_shortcuts(config: &AppConfig) -> (plan: Option<ShortcutPlan>)
    ensures
        !config.global_hotkeys_enabled ==> plan is None,
        config.global_hotkeys_enabled ==> (plan matches Some(p) && {
            &&& p.modifiers == modifiers_spec(config.global_modifier@)
            &&& p.panic_key == match config.panic_hotkey {
                Some(k) => key_code(k@),
                None => None,
            }
            &&& shortcuts_view(p.pads@) == active_pad_keys(*config)
            &&& forall|i: int| 0 <= i < p.pads@.len() ==> #[trigger] p.pads@[i].bank_id@ == config.active_bank_id@
        }),
{
    if !config.global_hotkeys_enabled {
        return None;
    }
    let modifiers = modifiers_for(config.global_modifier.as_str());
    let panic_key = match &config.panic_hotkey {
        Some(k) => code_for_key(k.as_str()),
        None => None,
    };
    let mut pads: Vec<PadShortcut> = Vec::new();
    match position_of(&config.banks, &config.active_bank_id) {
        None => {},
        Some(b) => {
            let bank = &config.banks[b];
            let mut j: usize = 0;
            assert(bank.pads@.take(0) =~= Seq::<Pad>::empty());
            while j < bank.pads.len()
                invariant
                    j <= bank.pads@.len(),
                    bank.id@ == config.active_bank_id@,
                    shortcuts_view(pads@) == pad_keys(bank.pads@.take(j as int)),
                    forall|i: int| 0 <= i < pads@.len() ==> #[trigger] pads@[i].bank_id@ == config.active_bank_id@,
                decreases bank.pads@.len() - j,
            {
                let pad = &bank.pads[j];
                proof {
                    assert(bank.pads@.take(j + 1).drop_last() =~= bank.pads@.take(j as int));
                    assert(bank.pads@.take(j + 1).last() == *pad);
                }
                match &pad.hotkey {
                    Some(h) => match code_for_key(h.as_str()) {
                        Some(c) => {
                            pads.push(PadShortcut { bank_id: bank.id.clone(), pad_id: pad.id.clone(), pad_name: pad.name.clone(), key: c });
                            assert(shortcuts_view(pads@) =~= pad_keys(bank.pads@.take(j as int)).push((pad.id@, pad.name@, c)));
                        },
                        None => {},
                    },
                    None => {},
                }
                j = j + 1;
            }
            assert(bank.pads@.take(j as int) =~= bank.pads@);
        },
    }
    Some(ShortcutPlan { modifiers, panic_key, pads })
}

} // verus!
