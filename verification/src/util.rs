//! Small string utilities.

use vstd::prelude::*;
use vstd::string::*;

verus! {

/// The items joined with the separator between consecutive items.
pub open spec fn join_spec(parts: Seq<Seq<char>>, sep: Seq<char>) -> Seq<char>
    decreases parts.len(),
{
    if parts.len() == 0 {
        seq![]
    } else if parts.len() == 1 {
        parts[0]
    } else {
        parts[0] + sep + join_spec(parts.drop_first(), sep)
    }
}

/// Appending one item extends the join by a separator and that item, unless
/// the join was empty of items.
proof fn lemma_join_push(parts: Seq<Seq<char>>, sep: Seq<char>, item: Seq<char>)
    ensures
        join_spec(parts.push(item), sep) == if parts.len() == 0 {
            item
        } else {
            join_spec(parts, sep) + sep + item
        },
    decreases parts.len(),
{
    let p = parts.push(item);
    if parts.len() == 0 {
        assert(p.len() == 1);
        assert(p[0] == item);
        assert(join_spec(p, sep) == item);
    } else if parts.len() == 1 {
        assert(p.len() == 2);
        assert(p[0] == parts[0]);
        assert(p.drop_first() =~= seq![item]);
        assert(join_spec(p.drop_first(), sep) == item);
        assert(join_spec(p, sep) == p[0] + sep + join_spec(p.drop_first(), sep));
        assert(join_spec(p, sep) =~= join_spec(parts, sep) + sep + item);
    } else {
        lemma_join_push(parts.drop_first(), sep, item);
        assert(p.drop_first() =~= parts.drop_first().push(item));
        assert(p[0] == parts[0]);
        let rest = join_spec(parts.drop_first(), sep);
        assert(join_spec(p, sep) == p[0] + sep + join_spec(p.drop_first(), sep));
        assert(join_spec(p.drop_first(), sep) == rest + sep + item);
        assert(join_spec(parts, sep) == parts[0] + sep + rest);
        assert(join_spec(p, sep) =~= join_spec(parts, sep) + sep + item);
    }
}

/// Joins the items with the separator between consecutive items.
pub fn join_with(items: &Vec<String>, sep: &str) -> (r: String)
    ensures
        r@ == join_spec(items.deep_view(), sep@),
{
    let mut buf = String::new();
    let mut i: usize = 0;
    while i < items.len()
        invariant
            i <= items@.len(),
            buf@ == join_spec(items.deep_view().take(i as int), sep@),
        decreases items@.len() - i,
    {
        if i > 0 {
            buf.append(sep);
        }
        buf.append(items[i].as_str());
        proof {
            let parts = items.deep_view();
            lemma_join_push(parts.take(i as int), sep@, parts[i as int]);
            assert(parts.take(i as int).push(parts[i as int]) =~= parts.take(i + 1));
        }
        i = i + 1;
    }
    proof {
        assert(items.deep_view().take(items@.len() as int) =~= items.deep_view());
    }
    buf
}

} // verus!
