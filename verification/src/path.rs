//! Relative and absolute paths compared the way the standard library's
//! `Path` compares them: component by component, so that repeated
//! separators, a trailing separator and `.` components in the middle make
//! no difference.

use vstd::prelude::*;

use crate::text::{
    chars_of, first_index, lemma_first_index, lemma_first_index_at, lemma_split_on_lacks,
    ranges_view, split_on, split_ranges, string_from,
};

verus! {

/// A piece between separators that names a component: not empty, not `.`.
pub open spec fn keep_piece(x: Seq<char>) -> bool {
    x.len() > 0 && x != seq!['.']
}

/// The pieces that name components, in order.
pub open spec fn named_pieces(ps: Seq<Seq<char>>) -> Seq<Seq<char>>
    decreases ps.len(),
{
    if ps.len() == 0 {
        seq![]
    } else {
        (if keep_piece(ps[0]) {
            seq![ps[0]]
        } else {
            seq![]
        }) + named_pieces(ps.drop_first())
    }
}

/// The leading component that is not a name: the root (written here as the
/// empty sequence) for a path that starts with `/`, the current directory
/// `.` for a path that is `.` or starts with `./`, nothing otherwise.
pub open spec fn path_head(p: Seq<char>) -> Seq<Seq<char>> {
    if p.len() > 0 && p[0] == '/' {
        seq![seq![]]
    } else if p.len() > 0 && p[0] == '.' && (p.len() == 1 || p[1] == '/') {
        seq![seq!['.']]
    } else {
        seq![]
    }
}

/// The components of a path, as `Path::components` gives them: the root
/// (empty) or a leading `.`, then each piece between `/` that is neither
/// empty nor `.`; `..` stays a component.
pub open spec fn path_components(p: Seq<char>) -> Seq<Seq<char>> {
    path_head(p) + named_pieces(split_on(p, '/'))
}

/// Two paths are equal as `Path`s: their components agree.
pub open spec fn same_path(p: Seq<char>, q: Seq<char>) -> bool {
    path_components(p) == path_components(q)
}

/// Each component followed by `/`.
pub open spec fn encode_components(cs: Seq<Seq<char>>) -> Seq<char>
    decreases cs.len(),
{
    if cs.len() == 0 {
        seq![]
    } else {
        cs[0] + seq!['/'] + encode_components(cs.drop_first())
    }
}

/// A text that two paths share exactly when they are the same path.
pub open spec fn path_key(p: Seq<char>) -> Seq<char> {
    encode_components(path_components(p))
}

/// No component holds a separator.
pub open spec fn components_lack_separator(cs: Seq<Seq<char>>) -> bool {
    forall|i: int| 0 <= i < cs.len() ==> !(#[trigger] cs[i]).contains('/')
}

/// Named pieces are pieces.
proof fn lemma_named_pieces_lack(ps: Seq<Seq<char>>)
    requires
        components_lack_separator(ps),
    ensures
        components_lack_separator(named_pieces(ps)),
    decreases ps.len(),
{
    if ps.len() > 0 {
        let t = ps.drop_first();
        assert forall|i: int| 0 <= i < t.len() implies !(#[trigger] t[i]).contains('/') by {
            assert(t[i] == ps[i + 1]);
        }
        lemma_named_pieces_lack(t);
        let h = if keep_piece(ps[0]) {
            seq![ps[0]]
        } else {
            seq![]
        };
        let r = named_pieces(ps);
        assert forall|i: int| 0 <= i < r.len() implies !(#[trigger] r[i]).contains('/') by {
            if i < h.len() {
                assert(r[i] == ps[0]);
            } else {
                assert(r[i] == named_pieces(t)[i - h.len()]);
            }
        }
    }
}

/// The components of a path hold no separator.
pub proof fn lemma_components_lack_separator(p: Seq<char>)
    ensures
        components_lack_separator(path_components(p)),
{
    lemma_split_on_lacks(p, '/');
    lemma_named_pieces_lack(split_on(p, '/'));
    let h = path_head(p);
    let n = named_pieces(split_on(p, '/'));
    let c = path_components(p);
    assert(seq!['.'].contains('/') ==> false) by {
        if seq!['.'].contains('/') {
            let m = choose|m: int| 0 <= m < 1 && seq!['.'][m] == '/';
        }
    }
    assert forall|i: int| 0 <= i < c.len() implies !(#[trigger] c[i]).contains('/') by {
        if i < h.len() {
            assert(c[i] == h[i]);
            if c[i].contains('/') {
                let m = choose|m: int| 0 <= m < c[i].len() && c[i][m] == '/';
            }
        } else {
            assert(c[i] == n[i - h.len()]);
        }
    }
}

/// Distinct component lists without separators are encoded differently.
pub proof fn lemma_encode_injective(a: Seq<Seq<char>>, b: Seq<Seq<char>>)
    requires
        components_lack_separator(a),
        components_lack_separator(b),
        encode_components(a) == encode_components(b),
    ensures
        a == b,
    decreases a.len(),
{
    if a.len() == 0 {
        if b.len() > 0 {
            assert(encode_components(b).len() > 0);
        }
        assert(a =~= b);
    } else {
        assert(b.len() > 0) by {
            if b.len() == 0 {
                assert(encode_components(a).len() > 0);
            }
        }
        let e = encode_components(a);
        let a0 = a[0];
        let b0 = b[0];
        let ra = encode_components(a.drop_first());
        let rb = encode_components(b.drop_first());
        assert forall|k: int| 0 <= k < a0.len() implies (a0 + seq!['/'] + ra)[k] != '/' by {
            assert((a0 + seq!['/'] + ra)[k] == a0[k]);
            if a0[k] == '/' {
                assert(a0.contains('/'));
            }
        }
        assert forall|k: int| 0 <= k < b0.len() implies (b0 + seq!['/'] + rb)[k] != '/' by {
            assert((b0 + seq!['/'] + rb)[k] == b0[k]);
            if b0[k] == '/' {
                assert(b0.contains('/'));
            }
        }
        lemma_first_index_at(a0 + seq!['/'] + ra, '/', a0.len() as int);
        lemma_first_index_at(b0 + seq!['/'] + rb, '/', b0.len() as int);
        assert(a0.len() == b0.len());
        assert(a0 =~= e.take(a0.len() as int));
        assert(b0 =~= e.take(b0.len() as int));
        assert(ra =~= e.skip(a0.len() as int + 1));
        assert(rb =~= e.skip(b0.len() as int + 1));
        let ta = a.drop_first();
        let tb = b.drop_first();
        assert forall|i: int| 0 <= i < ta.len() implies !(#[trigger] ta[i]).contains('/') by {
            assert(ta[i] == a[i + 1]);
        }
        assert forall|i: int| 0 <= i < tb.len() implies !(#[trigger] tb[i]).contains('/') by {
            assert(tb[i] == b[i + 1]);
        }
        lemma_encode_injective(ta, tb);
        assert(a =~= b) by {
            assert forall|i: int| 0 <= i < a.len() implies a[i] == b[i] by {
                if i > 0 {
                    assert(a[i] == ta[i - 1]);
                    assert(b[i] == tb[i - 1]);
                }
            }
        }
    }
}

/// Two paths share a key exactly when they are the same path.
pub proof fn lemma_path_key(p: Seq<char>, q: Seq<char>)
    ensures
        same_path(p, q) <==> path_key(p) == path_key(q),
{
    lemma_components_lack_separator(p);
    lemma_components_lack_separator(q);
    if path_key(p) == path_key(q) {
        lemma_encode_injective(path_components(p), path_components(q));
    }
}

/// The values of a sequence of strings.
pub open spec fn strings_view(s: Seq<String>) -> Seq<Seq<char>> {
    s.map_values(|x: String| x@)
}

/// The components of a path, each as a string (the root as the empty
/// string).
pub fn components(p: &str) -> (cs: Vec<String>)
    ensures
        strings_view(cs@) == path_components(p@),
{
    let chars = chars_of(p);
    let n = chars.len();
    let mut cs: Vec<String> = Vec::new();
    if n > 0 && chars[0] == '/' {
        cs.push(String::new());
    } else if n > 0 && chars[0] == '.' && (n == 1 || chars[1] == '/') {
        let mut dot = String::new();
        dot.push('.');
        cs.push(dot);
    }
    assert(strings_view(cs@) =~= path_head(p@));
    let ranges = split_ranges(&chars, 0, n, '/');
    assert(chars@.subrange(0, n as int) =~= p@);
    let ghost pieces = ranges_view(chars@, ranges@);
    let ghost head = path_head(p@);
    let mut i: usize = 0;
    assert(pieces.skip(0) =~= pieces);
    assert(head + named_pieces(pieces) =~= strings_view(cs@) + named_pieces(pieces.skip(0)));
    while i < ranges.len()
        invariant
            n == chars@.len(),
            pieces == ranges_view(chars@, ranges@),
            pieces == split_on(p@, '/'),
            head == path_head(p@),
            i <= ranges@.len(),
            forall|r: int|
                0 <= r < ranges@.len() ==> 0 <= (#[trigger] ranges@[r]).0 <= ranges@[r].1 <= n,
            head + named_pieces(pieces) =~= strings_view(cs@) + named_pieces(pieces.skip(i as int)),
        decreases ranges@.len() - i,
    {
        let (a, b) = ranges[i];
        let ghost piece = chars@.subrange(a as int, b as int);
        assert(pieces[i as int] == piece);
        assert(pieces.skip(i as int).drop_first() =~= pieces.skip(i + 1));
        assert(pieces.skip(i as int)[0] == piece);
        let keep = b > a && !(b == a + 1 && chars[a] == '.');
        assert(keep == keep_piece(piece)) by {
            if b == a + 1 && chars[a as int] == '.' {
                assert(piece =~= seq!['.']);
            }
            if piece == seq!['.'] {
                assert(piece.len() == 1);
                assert(piece[0] == chars@[a as int]);
            }
        }
        let ghost before = cs@;
        if keep {
            cs.push(string_from(&chars, a, b));
            assert(strings_view(cs@) =~= strings_view(before).push(piece));
        }
        i = i + 1;
    }
    assert(pieces.skip(ranges@.len() as int) =~= Seq::<Seq<char>>::empty());
    cs
}

/// The key of a path: its components, each followed by `/`.
pub fn key_of(p: &str) -> (k: String)
    ensures
        k@ == path_key(p@),
{
    let cs = components(p);
    let ghost all = strings_view(cs@);
    let mut k = String::new();
    let mut i: usize = 0;
    assert(all.skip(0) =~= all);
    while i < cs.len()
        invariant
            all == strings_view(cs@),
            all == path_components(p@),
            i <= cs@.len(),
            encode_components(all) =~= k@ + encode_components(all.skip(i as int)),
        decreases cs@.len() - i,
    {
        assert(all.skip(i as int).drop_first() =~= all.skip(i + 1));
        assert(all.skip(i as int)[0] == cs@[i as int]@);
        k.push_str(cs[i].as_str());
        k.push('/');
        i = i + 1;
    }
    assert(all.skip(cs@.len() as int) =~= Seq::<Seq<char>>::empty());
    k
}

/// Whether two paths are the same as `Path`s.
pub fn paths_equal(a: &str, b: &str) -> (res: bool)
    ensures
        res == same_path(a@, b@),
{
    let ka = key_of(a);
    let kb = key_of(b);
    proof {
        lemma_path_key(a@, b@);
    }
    ka == kb
}

} // verus!
