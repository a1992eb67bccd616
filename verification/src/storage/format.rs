//! The human-readable text of a storage: its layout, then its elements as
//! nested bracketed rows, one line per innermost row.
use crate::dtype::DtypeStyler;
use crate::storage::layout::valid_index;
use crate::storage::TensorStorage;
use crate::text::{bool_text, nat_text, push_bool, push_nat};
use vstd::prelude::*;
use vstd::string::StringExecFns;

verus! {

/// The decimal texts of `s[..i]`, separated by `", "`.
pub open spec fn items_text(s: Seq<usize>, i: int) -> Seq<char>
    decreases i,
{
    if i <= 0 {
        Seq::empty()
    } else if i == 1 {
        nat_text(s[0] as nat)
    } else {
        items_text(s, i - 1) + seq![',', ' '] + nat_text(s[i - 1] as nat)
    }
}

/// A bracketed, comma-separated list of sizes: `[2, 3]`.
pub open spec fn list_text(s: Seq<usize>) -> Seq<char> {
    seq!['['] + items_text(s, s.len() as int) + seq![']']
}

/// `n` line breaks.
pub open spec fn newlines(n: int) -> Seq<char> {
    Seq::new(n as nat, |k: int| '\n')
}

/// `n` spaces.
pub open spec fn spaces(n: int) -> Seq<char> {
    Seq::new(n as nat, |k: int| ' ')
}

/// The texts of the first `i` elements along the innermost dimension below
/// coordinate prefix `prefix`, separated by `", "`.
pub open spec fn row_text<T: DtypeStyler>(t: TensorStorage<T>, prefix: Seq<usize>, i: int) -> Seq<char>
    decreases i,
{
    if i <= 0 {
        Seq::empty()
    } else if i == 1 {
        T::spec_text(t.value_at(prefix.push(0)))
    } else {
        row_text(t, prefix, i - 1) + seq![',', ' '] + T::spec_text(t.value_at(prefix.push((i - 1) as usize)))
    }
}

/// The bracketed text of the sub-tensor at coordinate prefix `prefix`
/// (covering dimensions `dim..`), whose inner lines are indented by
/// `indent + 1` columns.
pub open spec fn block_text<T: DtypeStyler>(t: TensorStorage<T>, dim: int, prefix: Seq<usize>, indent: int) -> Seq<
    char,
>
    decreases t.shape@.len() - dim, 1int, 0int,
{
    if dim < 0 || dim >= t.shape@.len() {
        Seq::empty()
    } else if dim == t.shape@.len() - 1 {
        seq!['['] + row_text(t, prefix, t.shape@[dim] as int) + seq![']']
    } else {
        seq!['['] + blocks_text(t, dim, prefix, indent, t.shape@[dim] as int) + seq![']']
    }
}

/// The texts of the first `i` sub-tensors below prefix `prefix` along
/// dimension `dim`, each after the first preceded by a comma, one line break
/// per remaining dimension and the indentation.
pub open spec fn blocks_text<T: DtypeStyler>(
    t: TensorStorage<T>,
    dim: int,
    prefix: Seq<usize>,
    indent: int,
    i: int,
) -> Seq<char>
    decreases t.shape@.len() - dim, 0int, i,
{
    if i <= 0 || dim < 0 || dim + 1 >= t.shape@.len() {
        Seq::empty()
    } else {
        let sep = if i == 1 {
            Seq::empty()
        } else {
            seq![','] + newlines(t.shape@.len() - dim - 1) + spaces(indent + 1)
        };
        blocks_text(t, dim, prefix, indent, i - 1) + sep + block_text(
            t,
            dim + 1,
            prefix.push((i - 1) as usize),
            indent + 1,
        )
    }
}

/// The element text: the first buffer entry for a scalar, the nested rows
/// otherwise.
pub open spec fn data_text<T: DtypeStyler>(t: TensorStorage<T>) -> Seq<char> {
    if t.shape@.len() == 0 {
        if t.buffer@.len() > 0 {
            T::spec_text(t.buffer@[0])
        } else {
            Seq::empty()
        }
    } else {
        block_text(t, 0, Seq::empty(), 12)
    }
}

/// The full text: shape and dtype, then element count and layout, then the
/// elements.
pub open spec fn storage_text<T: DtypeStyler>(t: TensorStorage<T>) -> Seq<char> {
    "Tensor(shape="@ + list_text(t.shape@) + ", dtype="@ + T::spec_dtype_name() + ",\n       numel="@
        + nat_text(t.numel as nat) + ", strides="@ + list_text(t.strides@) + ", contiguous="@ + bool_text(
        t.contiguous,
    ) + ", offset="@ + nat_text(t.offset as nat) + ",\n       data="@ + data_text(t) + ")"@
}

/// Append `list_text(s)`.
fn push_list(out: &mut String, s: &[usize])
    ensures
        final(out)@ == old(out)@ + list_text(s@),
{
    proof {
        reveal_strlit("[");
        reveal_strlit("]");
        reveal_strlit(", ");
    }
    out.append("[");
    let mut i: usize = 0;
    while i < s.len()
        invariant
            i <= s@.len(),
            out@ == old(out)@ + seq!['['] + items_text(s@, i as int),
        decreases s@.len() - i,
    {
        let ghost prev = out@;
        if i > 0 {
            let sep = ", ";
            proof {
                reveal_strlit(", ");
                assert(sep@ =~= seq![',', ' ']);
            }
            out.append(sep);
        }
        push_nat(out, s[i] as u64);
        proof {
            let t = nat_text(s@[i as int] as nat);
            if i == 0 {
                assert(out@ =~= prev + t);
            } else {
                assert(out@ =~= prev + seq![',', ' '] + t);
            }
            assert(items_text(s@, i + 1) == (if i == 0 {
                t
            } else {
                items_text(s@, i as int) + seq![',', ' '] + t
            }));
            assert(out@ =~= old(out)@ + seq!['['] + items_text(s@, i + 1));
        }
        i += 1;
    }
    out.append("]");
}

impl<T: DtypeStyler> TensorStorage<T> {
    /// Append the bracketed text of the sub-tensor at coordinate prefix
    /// `prefix` (dimensions `dim..`), with inner lines indented by
    /// `indent + 1` columns.
    fn print_recursive(&self, out: &mut String, dim: usize, prefix: &mut Vec<usize>, indent: usize)
        requires
            self.wf(),
            dim < self.shape@.len(),
            old(prefix)@.len() == dim,
            forall|j: int| 0 <= j < dim ==> #[trigger] old(prefix)@[j] < self.shape@[j],
            indent + self.shape@.len() - dim < usize::MAX,
        ensures
            final(prefix)@ == old(prefix)@,
            final(out)@ == old(out)@ + block_text(*self, dim as int, old(prefix)@, indent as int),
        decreases self.shape@.len() - dim,
    {
        let dim_size = self.shape[dim];
        let rank = self.shape.len();
        let ghost p0 = prefix@;
        proof {
            reveal_strlit("[");
            reveal_strlit("]");
        }
        out.append("[");
        if dim == rank - 1 {
            let mut i: usize = 0;
            while i < dim_size
                invariant
                    self.wf(),
                    prefix@ == p0,
                    p0.len() == dim,
                    dim == self.shape@.len() - 1,
                    dim_size == self.shape@[dim as int],
                    forall|j: int| 0 <= j < dim ==> #[trigger] p0[j] < self.shape@[j],
                    i <= dim_size,
                    out@ == old(out)@ + seq!['['] + row_text(*self, p0, i as int),
                decreases dim_size - i,
            {
                let ghost prev = out@;
                if i > 0 {
                    let sep = ", ";
                    proof {
                        reveal_strlit(", ");
                        assert(sep@ =~= seq![',', ' ']);
                    }
                    out.append(sep);
                }
                prefix.push(i);
                proof {
                    assert(valid_index(self.shape@, prefix@)) by {
                        assert forall|d: int| 0 <= d < self.shape@.len() implies #[trigger] prefix@[d] < self.shape@[d] by {
                            if d < dim {
                                assert(prefix@[d] == p0[d]);
                            }
                        }
                    }
                }
                let val = self.at(prefix.as_slice());
                let _ = prefix.pop();
                T::push_text(val, out);
                proof {
                    assert(prefix@ =~= p0);
                    let t = T::spec_text(self.value_at(p0.push(i)));
                    if i == 0 {
                        assert(out@ =~= prev + t);
                    } else {
                        assert(out@ =~= prev + seq![',', ' '] + t);
                    }
                    assert(out@ =~= old(out)@ + seq!['['] + row_text(*self, p0, i + 1));
                }
                i += 1;
            }
        } else {
            let mut i: usize = 0;
            while i < dim_size
                invariant
                    self.wf(),
                    prefix@ == p0,
                    p0.len() == dim,
                    dim + 1 < self.shape@.len(),
                    self.shape@.len() <= usize::MAX,
                    dim_size == self.shape@[dim as int],
                    forall|j: int| 0 <= j < dim ==> #[trigger] p0[j] < self.shape@[j],
                    indent + self.shape@.len() - dim < usize::MAX,
                    i <= dim_size,
                    out@ == old(out)@ + seq!['['] + blocks_text(*self, dim as int, p0, indent as int, i as int),
                decreases dim_size - i,
            {
                let ghost prev = out@;
                if i > 0 {
                    proof {
                        reveal_strlit(",");
                        reveal_strlit("\n");
                        reveal_strlit(" ");
                    }
                    out.append(",");
                    let count = self.shape.len() - dim - 1;
                    let mut nl: usize = 0;
                    while nl < count
                        invariant
                            nl <= count,
                            out@ == prev + seq![','] + newlines(nl as int),
                        decreases count - nl,
                    {
                        let nl_text = "\n";
                        proof {
                            reveal_strlit("\n");
                            assert(nl_text@ =~= seq!['\n']);
                        }
                        out.append(nl_text);
                        proof {
                            assert(out@ =~= prev + seq![','] + newlines(nl + 1));
                        }
                        nl += 1;
                    }
                    let mut sp: usize = 0;
                    while sp < indent + 1
                        invariant
                            sp <= indent + 1,
                            indent + 1 < usize::MAX,
                            out@ == prev + seq![','] + newlines(count as int) + spaces(sp as int),
                        decreases indent + 1 - sp,
                    {
                        let sp_text = " ";
                        proof {
                            reveal_strlit(" ");
                            assert(sp_text@ =~= seq![' ']);
                        }
                        out.append(sp_text);
                        proof {
                            assert(out@ =~= prev + seq![','] + newlines(count as int) + spaces(sp + 1));
                        }
                        sp += 1;
                    }
                }
                let ghost mid = out@;
                prefix.push(i);
                proof {
                    assert forall|j: int| 0 <= j < dim + 1 implies #[trigger] prefix@[j] < self.shape@[j] by {
                        if j < dim {
                            assert(prefix@[j] == p0[j]);
                        }
                    }
                }
                self.print_recursive(out, dim + 1, prefix, indent + 1);
                let _ = prefix.pop();
                proof {
                    assert(prefix@ =~= p0);
                    let sep = if i == 0 {
                        Seq::<char>::empty()
                    } else {
                        seq![','] + newlines(self.shape@.len() - dim - 1) + spaces(indent + 1)
                    };
                    assert(mid =~= prev + sep);
                    assert(out@ =~= old(out)@ + seq!['['] + blocks_text(*self, dim as int, p0, indent as int, i + 1));
                }
                i += 1;
            }
        }
        out.append("]");
    }

    /// The human-readable text of the storage: shape, dtype, element count,
    /// strides, contiguity and offset, then the elements as nested rows.
    /// The rank is bounded by what fits in memory.
    pub fn to_string(&self) -> (r: String)
        requires
            self.wf(),
            self.shape@.len() + 13 < usize::MAX,
        ensures
            r@ == storage_text(*self),
    {
        proof {
            reveal_strlit("Tensor(shape=");
            reveal_strlit(", dtype=");
            reveal_strlit(",\n       numel=");
            reveal_strlit(", strides=");
            reveal_strlit(", contiguous=");
            reveal_strlit(", offset=");
            reveal_strlit(",\n       data=");
            reveal_strlit(")");
        }
        let mut out = String::new();
        out.append("Tensor(shape=");
        push_list(&mut out, self.shape.as_slice());
        out.append(", dtype=");
        out.append(T::dtype_name());
        out.append(",\n       numel=");
        push_nat(&mut out, self.numel as u64);
        out.append(", strides=");
        push_list(&mut out, self.strides.as_slice());
        out.append(", contiguous=");
        push_bool(&mut out, self.contiguous);
        out.append(", offset=");
        push_nat(&mut out, self.offset as u64);
        out.append(",\n       data=");
        let ghost head = out@;
        if self.shape.len() == 0 {
            if self.buffer.len() > 0 {
                T::push_text(self.buffer[0], &mut out);
            }
        } else {
            let mut prefix: Vec<usize> = Vec::new();
            proof {
                assert(prefix@ =~= Seq::<usize>::empty());
            }
            self.print_recursive(&mut out, 0, &mut prefix, 12);
        }
        proof {
            assert(out@ =~= head + data_text(*self));
        }
        out.append(")");
        proof {
            assert(out@ =~= storage_text(*self));
        }
        out
    }
}

} // verus!
