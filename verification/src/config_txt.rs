//! Runtime sync of `config.txt` to the EFI partition: the direct-kernel-boot
//! `followkernel` directive is appended unless a trimmed, non-comment line
//! already is that directive.

use crate::text::{
    chars_of, line_spans, lines, push_all, range_equals, spans_within, span_view, starts_with,
    string_of, trim, trim_bounds,
};
use vstd::prelude::*;

verus! {

pub open spec fn directive() -> Seq<char> {
    "initramfs initramfs.img followkernel"@
}

/// What is appended when the directive is missing.
pub open spec fn followkernel_block() -> Seq<char> {
    "\n# Direct kernel boot (rpi-bls-sync):\n"@ + directive() + "\n"@
}

/// Some line of `c`, trimmed, is the directive and not a comment.
pub open spec fn has_directive_line(c: Seq<char>) -> bool {
    exists|k: int|
        0 <= k < lines(c).len() && #[trigger] trim(lines(c)[k]) == directive() && !starts_with(
            trim(lines(c)[k]),
            "#"@,
        )
}

/// `c` with the followkernel block appended unless a directive line is present.
pub open spec fn with_followkernel(c: Seq<char>) -> Seq<char> {
    if has_directive_line(c) {
        c
    } else {
        c + followkernel_block()
    }
}

proof fn lemma_comment(t: Seq<char>)
    ensures
        starts_with(t, "#"@) == (t.len() >= 1 && t[0] == '#'),
{
    reveal_strlit("#");
    assert("#"@ =~= seq!['#']);
    let p = "#"@;
    assert(p.len() == 1);
    if t.len() >= 1 {
        assert(t.take(1) =~= seq![t[0]]);
        if t[0] == '#' {
            assert(t.take(p.len() as int) =~= p);
        } else {
            assert(t.take(p.len() as int)[0] != p[0]);
        }
    }
}

/// The characters of the block appended after `config.txt`.
fn block_chars() -> (v: Vec<char>)
    ensures
        v@ == followkernel_block(),
{
    let mut v = chars_of("\n# Direct kernel boot (rpi-bls-sync):\n");
    push_all(&mut v, &chars_of("initramfs initramfs.img followkernel"));
    push_all(&mut v, &chars_of("\n"));
    v
}

/// Append the direct-kernel-boot block if no trimmed, non-comment line of
/// `config_txt` is `initramfs initramfs.img followkernel`; idempotent.
pub fn ensure_followkernel(config_txt: &str) -> (r: String)
    ensures
        r@ == with_followkernel(config_txt@),
{
    let c = chars_of(config_txt);
    let d = chars_of("initramfs initramfs.img followkernel");
    let spans = line_spans(&c);
    let ghost ls = lines(c@);
    let mut k: usize = 0;
    while k < spans.len()
        invariant
            k <= spans@.len(),
            spans_within(c@, spans@),
            span_view(c@, spans@) == ls,
            ls == lines(c@),
            d@ == directive(),
            c@ == config_txt@,
            forall|j: int|
                0 <= j < k ==> !(#[trigger] trim(ls[j]) == directive() && !starts_with(
                    trim(ls[j]),
                    "#"@,
                )),
        decreases spans.len() - k,
    {
        let (a, b) = spans[k];
        assert(ls[k as int] == c@.subrange(a as int, b as int));
        let (x, y) = trim_bounds(&c, a, b);
        assert(trim(ls[k as int]) == c@.subrange(x as int, y as int));
        let comment = x < y && c[x] == '#';
        proof {
            lemma_comment(c@.subrange(x as int, y as int));
            if x < y {
                assert(c@.subrange(x as int, y as int)[0] == c@[x as int]);
            }
        }
        if range_equals(&c, x, y, &d) && !comment {
            assert(trim(lines(c@)[k as int]) == directive());
            assert(!starts_with(trim(lines(c@)[k as int]), "#"@));
            let r = string_of(&c);
            return r;
        }
        k = k + 1;
    }
    let mut out = c;
    push_all(&mut out, &block_chars());
    string_of(&out)
}

/// The lines of `y` are the last lines of `x + "\n" + y`.
proof fn lemma_lines_suffix(x: Seq<char>, y: Seq<char>)
    ensures
        exists|pre: Seq<Seq<char>>| lines(x + seq!['\n'] + y) == pre + lines(y),
    decreases x.len(),
{
    let s = x + seq!['\n'] + y;
    crate::text::lemma_find_char(s, '\n');
    crate::text::lemma_find_char(x, '\n');
    match crate::text::find_char(x, '\n') {
        Some(k) => {
            crate::text::lemma_find_char_at(s, '\n', k);
            assert(s.take(k) =~= x.take(k));
            assert(s.skip(k + 1) =~= x.skip(k + 1) + seq!['\n'] + y);
            lemma_lines_suffix(x.skip(k + 1), y);
            let pre = choose|pre: Seq<Seq<char>>|
                lines(x.skip(k + 1) + seq!['\n'] + y) == pre + lines(y);
            assert(lines(s) =~= (seq![crate::text::strip_cr(x.take(k))] + pre) + lines(y));
        },
        None => {
            crate::text::lemma_find_char_at(s, '\n', x.len() as int);
            assert(s.take(x.len() as int) =~= x);
            assert(s.skip(x.len() as int + 1) =~= y);
            assert(lines(s) =~= seq![crate::text::strip_cr(x)] + lines(y));
        },
    }
}

/// The appended block puts the directive on a line of its own.
proof fn lemma_block_has_directive(c: Seq<char>)
    ensures
        has_directive_line(c + followkernel_block()),
{
    reveal_strlit("\n# Direct kernel boot (rpi-bls-sync):\n");
    reveal_strlit("initramfs initramfs.img followkernel");
    reveal_strlit("\n");
    let d = directive();
    reveal_strlit("\n# Direct kernel boot (rpi-bls-sync):");
    let head = "\n# Direct kernel boot (rpi-bls-sync):"@;
    let y = d + seq!['\n'];
    assert("\n# Direct kernel boot (rpi-bls-sync):\n"@ =~= head + seq!['\n']);
    assert("\n"@ =~= seq!['\n']);
    assert(c + followkernel_block() =~= (c + head) + seq!['\n'] + y);
    lemma_lines_suffix(c + head, y);
    let pre = choose|pre: Seq<Seq<char>>| lines((c + head) + seq!['\n'] + y) == pre + lines(y);
    crate::text::lemma_find_char_at(y, '\n', d.len() as int);
    assert(y.take(d.len() as int) =~= d);
    assert(y.skip(d.len() as int + 1) =~= Seq::<char>::empty());
    assert(crate::text::find_char(y, '\n') == Some(d.len() as int));
    assert(lines(Seq::<char>::empty()) =~= Seq::<Seq<char>>::empty());
    assert(crate::text::strip_cr(d) == d);
    assert(lines(y) =~= seq![d]);
    let ls = lines(c + followkernel_block());
    assert(ls[pre.len() as int] == d);
    assert(crate::text::trim_start(d) == d);
    assert(crate::text::trim_end(d) == d);
    lemma_comment(d);
    assert(trim(ls[pre.len() as int]) == directive());
}

/// Appending the directive is idempotent, and never changes what was there:
/// the result starts with the input, and a second call returns it unchanged.
pub proof fn lemma_followkernel_idempotent(c: Seq<char>)
    ensures
        c.is_prefix_of(with_followkernel(c)),
        with_followkernel(with_followkernel(c)) == with_followkernel(c),
        has_directive_line(with_followkernel(c)),
{
    if !has_directive_line(c) {
        lemma_block_has_directive(c);
    }
    assert(c.is_prefix_of(with_followkernel(c)));
}

} // verus!
