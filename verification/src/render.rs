//! Textual rendering of a view as nested bracketed rows: every axis but
//! the innermost opens an indented bracket over its children; the
//! innermost renders its elements as one comma-separated bracketed line.
//! Elements are consumed from the buffer in flat left-to-right order.

use vstd::prelude::*;

use crate::array::{ArrayView, ArrayBase};
use crate::field::Field;
use crate::index_tricks::{to_ints, prod, lemma_prod_skip_unfold, lemma_prod_nonneg};

verus! {

/// The text accumulated so far in a builder.
pub uninterp spec fn builder_text(b: string_builder::Builder) -> Seq<char>;

/// Whether the builder's accumulated bytes are valid UTF-8; appending
/// string slices preserves this.
pub uninterp spec fn builder_ok(b: string_builder::Builder) -> bool;

#[verifier::external_type_specification]
#[verifier::external_body]
pub struct ExBuilder(string_builder::Builder);

/// Relies on `string_builder::Builder::default`: a new builder holds no
/// bytes.
#[verifier::external_body]
fn builder_new() -> (b: string_builder::Builder)
    ensures
        builder_text(b) == Seq::<char>::empty(),
        builder_ok(b),
{
    string_builder::Builder::default()
}

/// Relies on `string_builder::Builder::append` for `&str`: it appends
/// exactly the bytes of the slice, which keeps the buffer valid UTF-8.
#[verifier::external_body]
fn builder_append(b: &mut string_builder::Builder, s: &str)
    ensures
        builder_text(*final(b)) == builder_text(*old(b)) + s@,
        builder_ok(*old(b)) ==> builder_ok(*final(b)),
{
    b.append(s)
}

/// Relies on `string_builder::Builder::string`: the accumulated bytes
/// decoded as UTF-8, or `None` where they are not valid UTF-8.
#[verifier::external_body]
fn builder_string(b: string_builder::Builder) -> (r: Option<String>)
    ensures
        builder_ok(b) ==> r is Some,
        r matches Some(s) ==> s@ == builder_text(b),
{
    match b.string() {
        Ok(s) => Option::Some(s),
        Err(_) => Option::None,
    }
}

/// `d` spaces of indentation.
pub open spec fn spaces(d: int) -> Seq<char>
    decreases d,
{
    if d <= 0 {
        Seq::empty()
    } else {
        spaces(d - 1).push(' ')
    }
}

/// The comma-separated decimal texts of `cnt` consecutive elements
/// starting at `pos`.
pub open spec fn row_text<K: Field>(data: Seq<K>, pos: int, cnt: int) -> Seq<char>
    decreases cnt,
{
    if cnt <= 0 {
        Seq::empty()
    } else if cnt == 1 {
        data[pos].text_spec()
    } else {
        data[pos].text_spec() + seq![',', ' '] + row_text(data, pos + 1, cnt - 1)
    }
}

/// The rendering of the subtree at axis `d` whose elements start at flat
/// position `pos`.
pub open spec fn block_text<K: Field>(shape: Seq<int>, data: Seq<K>, d: int, pos: int) -> Seq<char>
    decreases shape.len() - d, vstd::math::max(shape[d], 0) + 1,
{
    if d < shape.len() - 1 {
        spaces(d) + seq!['[', '\n'] + children_text(shape, data, d, pos, 0) + spaces(d) + seq![
            ']',
            '\n',
        ]
    } else {
        spaces(d) + seq!['['] + row_text(data, pos, shape[d]) + seq![']']
    }
}

/// The renderings of the children `j..shape[d]` of the block at axis `d`,
/// each followed by a line break.
pub open spec fn children_text<K: Field>(
    shape: Seq<int>,
    data: Seq<K>,
    d: int,
    pos: int,
    j: int,
) -> Seq<char>
    decreases shape.len() - d, vstd::math::max(shape[d] - j, 0),
{
    if j >= shape[d] || d >= shape.len() - 1 {
        Seq::empty()
    } else {
        block_text(shape, data, d + 1, pos + j * prod(shape.skip(d + 1))) + seq!['\n']
            + children_text(shape, data, d, pos, j + 1)
    }
}

/// Append `d` spaces of indentation.
fn append_spaces(b: &mut string_builder::Builder, d: usize)
    requires
        builder_ok(*old(b)),
    ensures
        builder_ok(*final(b)),
        builder_text(*final(b)) == builder_text(*old(b)) + spaces(d as int),
{
    let ghost orig = builder_text(*b);
    let mut k: usize = 0;
    while k < d
        invariant
            k <= d,
            builder_ok(*b),
            builder_text(*b) == orig + spaces(k as int),
        decreases d - k,
    {
        builder_append(b, " ");
        k = k + 1;
        proof {
            reveal_strlit(" ");
            assert(" "@ =~= seq![' ']);
            assert(spaces(k as int) =~= spaces(k as int - 1).push(' '));
            assert(orig + spaces(k as int - 1) + " "@ =~= orig + spaces(k as int));
        }
    }
    proof {
        if d == 0 {
            assert(spaces(0) =~= Seq::<char>::empty());
            assert(orig + spaces(0) =~= orig);
        }
    }
}

/// Render the subtree at axis `d`, whose elements start at flat position
/// `pos`, into the builder; the returned position is just past the
/// subtree's elements.
fn format_helper<K: Field>(
    shape: &Vec<usize>,
    data: &[K],
    d: usize,
    pos: usize,
    b: &mut string_builder::Builder,
) -> (newpos: usize)
    requires
        d < shape@.len(),
        forall|i: int| 0 <= i < shape@.len() ==> #[trigger] to_ints(shape@)[i] >= 1,
        pos + prod(to_ints(shape@).skip(d as int)) <= data@.len(),
        builder_ok(*old(b)),
    ensures
        builder_ok(*final(b)),
        builder_text(*final(b)) == builder_text(*old(b)) + block_text(
            to_ints(shape@),
            data@,
            d as int,
            pos as int,
        ),
        newpos as int == pos + prod(to_ints(shape@).skip(d as int)),
    decreases shape@.len() - d,
{
    let ghost shp = to_ints(shape@);
    let ghost orig = builder_text(*b);
    let n = shape.len();
    proof {
        lemma_prod_skip_unfold(shp, d as int);
        assert forall|m: int| 0 <= m < shp.skip(d as int + 1).len()
            implies #[trigger] shp.skip(d as int + 1)[m] >= 0 by {
            assert(shp.skip(d as int + 1)[m] == shp[d + 1 + m]);
        }
        lemma_prod_nonneg(shp.skip(d as int + 1));
        assert(shp[d as int] >= 1);
    }
    append_spaces(b, d);
    if d < n - 1 {
        builder_append(b, "[\n");
        proof {
            reveal_strlit("[\n");
            assert("[\n"@ =~= seq!['[', '\n']);
        }
        let ghost chunk = prod(shp.skip(d as int + 1));
        let extent = shape[d];
        let d1 = d + 1;
        let mut j: usize = 0;
        let mut p: usize = pos;
        let ghost mut done: Seq<char> = Seq::empty();
        proof {
            assert(done + children_text(shp, data@, d as int, pos as int, 0) =~= children_text(
                shp,
                data@,
                d as int,
                pos as int,
                0,
            ));
        }
        while j < extent
            invariant
                shp == to_ints(shape@),
                d < shape@.len() - 1,
                extent as int == shp[d as int],
                chunk == prod(shp.skip(d as int + 1)),
                chunk >= 0,
                forall|i: int| 0 <= i < shape@.len() ==> #[trigger] to_ints(shape@)[i] >= 1,
                pos + prod(shp.skip(d as int)) <= data@.len(),
                prod(shp.skip(d as int)) == shp[d as int] * chunk,
                j <= extent,
                d1 == d + 1,
                p as int == pos + j * chunk,
                builder_ok(*b),
                builder_text(*b) == orig + spaces(d as int) + seq!['[', '\n'] + done,
                done + children_text(shp, data@, d as int, pos as int, j as int)
                    == children_text(shp, data@, d as int, pos as int, 0),
            decreases extent - j,
        {
            proof {
                assert((j + 1) * chunk <= shp[d as int] * chunk) by (nonlinear_arith)
                    requires
                        j + 1 <= shp[d as int],
                        chunk >= 0,
                ;
                assert(j * chunk + chunk == (j + 1) * chunk) by (nonlinear_arith);
            }
            let p2 = format_helper(shape, data, d1, p, b);
            builder_append(b, "\n");
            proof {
                reveal_strlit("\n");
                assert("\n"@ =~= seq!['\n']);
                let blk = block_text(shp, data@, d as int + 1, p as int);
                assert(children_text(shp, data@, d as int, pos as int, j as int) == blk
                    + seq!['\n'] + children_text(shp, data@, d as int, pos as int, j as int + 1));
                done = done + blk + seq!['\n'];
                assert(builder_text(*b) =~= orig + spaces(d as int) + seq!['[', '\n'] + done);
                assert(done + children_text(shp, data@, d as int, pos as int, j as int + 1)
                    =~= children_text(shp, data@, d as int, pos as int, 0));
            }
            p = p2;
            j = j + 1;
        }
        append_spaces(b, d);
        builder_append(b, "]\n");
        proof {
            reveal_strlit("]\n");
            assert("]\n"@ =~= seq![']', '\n']);
            assert(children_text(shp, data@, d as int, pos as int, extent as int)
                =~= Seq::<char>::empty());
            assert(done =~= done + children_text(shp, data@, d as int, pos as int, extent as int));
            assert(builder_text(*b) =~= orig + block_text(shp, data@, d as int, pos as int));
        }
        p
    } else {
        builder_append(b, "[");
        proof {
            reveal_strlit("[");
            assert("["@ =~= seq!['[']);
            assert(shp.skip(d as int + 1) =~= Seq::<int>::empty());
            assert(prod(Seq::<int>::empty()) == 1);
            assert(prod(shp.skip(d as int + 1)) == prod(Seq::<int>::empty()));
            lemma_prod_skip_unfold(shp, d as int);
            assert(prod(shp.skip(d as int)) == shp[d as int] * prod(shp.skip(d as int + 1)));
            assert(prod(shp.skip(d as int)) == shp[d as int]) by (nonlinear_arith)
                requires
                    prod(shp.skip(d as int)) == shp[d as int] * prod(shp.skip(d as int + 1)),
                    prod(shp.skip(d as int + 1)) == 1,
            ;
        }
        let cnt = shape[d];
        let dl = data.len();
        let mut j: usize = 0;
        let mut p: usize = pos;
        let ghost mut done: Seq<char> = Seq::empty();
        while j < cnt
            invariant
                shp == to_ints(shape@),
                d == shape@.len() - 1,
                cnt as int == shp[d as int],
                pos + shp[d as int] <= data@.len(),
                dl as int == data@.len(),
                j <= cnt,
                p as int == pos + j,
                builder_ok(*b),
                builder_text(*b) == orig + spaces(d as int) + seq!['['] + done,
                done + row_text(data@, p as int, cnt - j) == row_text(
                    data@,
                    pos as int,
                    cnt as int,
                ),
            decreases cnt - j,
        {
            let elem = *vstd::slice::slice_index_get(data, p);
            let text = elem.to_text();
            builder_append(b, text.as_str());
            proof {
                let et = data@[p as int].text_spec();
                if j < cnt - 1 {
                    assert(row_text(data@, p as int, cnt - j) == et + seq![',', ' '] + row_text(
                        data@,
                        p as int + 1,
                        cnt - j - 1,
                    ));
                } else {
                    assert(row_text(data@, p as int, 1) == et);
                }
            }
            if j < cnt - 1 {
                builder_append(b, ", ");
                proof {
                    reveal_strlit(", ");
                    assert(", "@ =~= seq![',', ' ']);
                    done = done + data@[p as int].text_spec() + seq![',', ' '];
                    assert(builder_text(*b) =~= orig + spaces(d as int) + seq!['['] + done);
                    assert(done + row_text(data@, p as int + 1, cnt - j - 1) =~= row_text(
                        data@,
                        pos as int,
                        cnt as int,
                    ));
                }
            } else {
                proof {
                    done = done + data@[p as int].text_spec();
                    assert(builder_text(*b) =~= orig + spaces(d as int) + seq!['['] + done);
                    assert(row_text(data@, p as int + 1, 0) =~= Seq::<char>::empty());
                    assert(done + row_text(data@, p as int + 1, cnt - j - 1) =~= row_text(
                        data@,
                        pos as int,
                        cnt as int,
                    ));
                }
            }
            p = p + 1;
            j = j + 1;
        }
        builder_append(b, "]");
        proof {
            reveal_strlit("]");
            assert("]"@ =~= seq![']']);
            assert(done =~= row_text(data@, pos as int, cnt as int));
            assert(builder_text(*b) =~= orig + block_text(shp, data@, d as int, pos as int));
        }
        p
    }
}

impl<'a, K: Field> ArrayView<'a, K> {
    /// The nested bracketed text of the view, every element in decimal,
    /// consumed from the buffer in flat order. Every extent must be
    /// positive.
    pub fn render(&self) -> (r: String)
        requires
            self.inv(),
            self.shape@.len() >= 1,
            forall|i: int| 0 <= i < self.shape@.len() ==> #[trigger] to_ints(self.shape@)[i] >= 1,
        ensures
            r@ == block_text(to_ints(self.shape@), self.data@, 0, 0),
    {
        let mut b = builder_new();
        proof {
            assert(to_ints(self.shape@).skip(0) =~= to_ints(self.shape@));
        }
        let _end = format_helper(&self.shape, self.data, 0, 0, &mut b);
        let ghost expected = block_text(to_ints(self.shape@), self.data@, 0, 0);
        proof {
            assert(builder_text(b) =~= expected);
        }
        match builder_string(b) {
            Option::Some(s) => s,
            Option::None => vstd::pervasive::unreached(),
        }
    }
}

} // verus!
