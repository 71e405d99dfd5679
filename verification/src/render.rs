use vstd::prelude::*;
use vstd::string::StrSliceExecFns;
use crate::image_info::ImageInfo;

verus! {

/// A path body rendered for output: every double quote is preceded by a
/// backslash; all other characters stand unchanged.
pub open spec fn escape_quotes(s: Seq<char>) -> Seq<char>
    decreases s.len(),
{
    if s.len() == 0 {
        Seq::empty()
    } else {
        let rest = escape_quotes(s.drop_first());
        if s.first() == '"' {
            seq!['\\', '"'] + rest
        } else {
            seq![s.first()] + rest
        }
    }
}

/// A path rendered for output: the escaped body wrapped in double quotes,
/// so that spaces inside a path cannot be mistaken for the separator.
pub open spec fn quoted(s: Seq<char>) -> Seq<char> {
    seq!['"'] + escape_quotes(s) + seq!['"']
}

/// One output line: the quoted paths of the group members, in member
/// order, separated by single spaces.
pub open spec fn render_line_spec(imgs: Seq<ImageInfo>, g: Seq<usize>) -> Seq<char>
    decreases g.len(),
{
    if g.len() == 0 {
        Seq::empty()
    } else if g.len() == 1 {
        quoted(imgs[g[0] as int].path@)
    } else {
        quoted(imgs[g[0] as int].path@) + seq![' '] + render_line_spec(imgs, g.drop_first())
    }
}

/// Escaping distributes over concatenation.
proof fn lemma_escape_concat(s: Seq<char>, t: Seq<char>)
    ensures
        escape_quotes(s + t) == escape_quotes(s) + escape_quotes(t),
    decreases s.len(),
{
    if s.len() == 0 {
        assert(s + t =~= t);
        assert(escape_quotes(s) + escape_quotes(t) =~= escape_quotes(t));
    } else {
        assert((s + t).first() == s.first());
        assert((s + t).drop_first() =~= s.drop_first() + t);
        lemma_escape_concat(s.drop_first(), t);
        if s.first() == '"' {
            assert(seq!['\\', '"'] + (escape_quotes(s.drop_first()) + escape_quotes(t)) =~= (
            seq!['\\', '"'] + escape_quotes(s.drop_first())) + escape_quotes(t));
        } else {
            assert(seq![s.first()] + (escape_quotes(s.drop_first()) + escape_quotes(t)) =~= (
            seq![s.first()] + escape_quotes(s.drop_first())) + escape_quotes(t));
        }
    }
}

/// Relies on std's String::push: appends the one character at the end.
#[verifier::external_body]
fn push_char(s: &mut String, c: char)
    ensures
        final(s)@ == old(s)@.push(c),
{
    s.push(c)
}

/// Render one path for output: quoted, with embedded quotes escaped.
pub fn quote_path(path: &String) -> (r: String)
    ensures
        r@ == quoted(path@),
{
    let mut r = String::new();
    push_char(&mut r, '"');
    let len = path.as_str().unicode_len();
    let mut i: usize = 0;
    while i < len
        invariant
            len == path@.len(),
            i <= len,
            r@ == seq!['"'] + escape_quotes(path@.take(i as int)),
        decreases len - i,
    {
        let c = path.as_str().get_char(i);
        let ghost pre = path@.take(i as int);
        if c == '"' {
            push_char(&mut r, '\\');
            push_char(&mut r, '"');
        } else {
            push_char(&mut r, c);
        }
        proof {
            assert(path@.take(i + 1) =~= pre + seq![c]);
            lemma_escape_concat(pre, seq![c]);
            assert(seq![c].drop_first() =~= Seq::<char>::empty());
            assert(escape_quotes(Seq::<char>::empty()) == Seq::<char>::empty());
            assert(seq![c].len() == 1 && seq![c].first() == c);
            if c == '"' {
                assert(escape_quotes(seq![c]) =~= seq!['\\', '"']);
                assert(r@ =~= seq!['"'] + escape_quotes(path@.take(i + 1)));
            } else {
                assert(escape_quotes(seq![c]) =~= seq![c]);
                assert(r@ =~= seq!['"'] + escape_quotes(path@.take(i + 1)));
            }
        }
        i = i + 1;
    }
    push_char(&mut r, '"');
    proof {
        assert(path@.take(len as int) =~= path@);
        assert(r@ =~= quoted(path@));
    }
    r
}

/// Render one group as its output line: quoted member paths, space
/// separated, in member order.
pub fn render_line(images: &Vec<ImageInfo>, g: &Vec<usize>) -> (line: String)
    requires
        forall|p: int| 0 <= p < g@.len() ==> (#[trigger] g@[p]) < images@.len(),
    ensures
        line@ == render_line_spec(images@, g@),
{
    let mut line = String::new();
    proof {
        assert(g@.skip(0) =~= g@);
        assert(line@ + render_line_spec(images@, g@.skip(0)) =~= render_line_spec(images@, g@));
    }
    let mut p: usize = 0;
    while p < g.len()
        invariant
            forall|q: int| 0 <= q < g@.len() ==> (#[trigger] g@[q]) < images@.len(),
            p <= g@.len(),
            render_line_spec(images@, g@) == line@ + render_line_spec(
                images@,
                g@.skip(p as int),
            ),
        decreases g@.len() - p,
    {
        let ghost pre = line@;
        let ghost suffix = g@.skip(p as int);
        let q = quote_path(&images[g[p]].path);
        line.append(q.as_str());
        proof {
            assert(suffix[0] == g@[p as int]);
            assert(suffix.drop_first() =~= g@.skip(p + 1));
        }
        if p + 1 < g.len() {
            push_char(&mut line, ' ');
            proof {
                assert(suffix.len() > 1);
                assert(render_line_spec(images@, suffix) == quoted(
                    images@[g@[p as int] as int].path@,
                ) + seq![' '] + render_line_spec(images@, g@.skip(p + 1)));
                assert(line@ =~= pre + quoted(images@[g@[p as int] as int].path@) + seq![' ']);
                assert(line@ + render_line_spec(images@, g@.skip(p + 1)) =~= pre
                    + render_line_spec(images@, suffix));
            }
        } else {
            proof {
                assert(suffix.len() == 1);
                assert(render_line_spec(images@, suffix) == quoted(
                    images@[g@[p as int] as int].path@,
                ));
                assert(g@.skip(p + 1) =~= Seq::<usize>::empty());
                assert(line@ + render_line_spec(images@, g@.skip(p + 1)) =~= pre
                    + render_line_spec(images@, suffix));
            }
        }
        p = p + 1;
    }
    proof {
        assert(g@.skip(g@.len() as int) =~= Seq::<usize>::empty());
        assert(line@ + render_line_spec(images@, g@.skip(g@.len() as int)) =~= line@);
    }
    line
}

/// Render every group as one output line, in group order.
pub fn render_groups(images: &Vec<ImageInfo>, groups: &Vec<Vec<usize>>) -> (lines: Vec<String>)
    requires
        forall|gi: int, p: int|
            #![trigger groups@[gi]@[p]]
            0 <= gi < groups@.len() && 0 <= p < groups@[gi]@.len() ==> groups@[gi]@[p]
                < images@.len(),
    ensures
        lines@.len() == groups@.len(),
        forall|gi: int|
            0 <= gi < groups@.len() ==> (#[trigger] lines@[gi])@ == render_line_spec(
                images@,
                groups@[gi]@,
            ),
{
    let mut lines: Vec<String> = Vec::new();
    let mut gi: usize = 0;
    while gi < groups.len()
        invariant
            forall|g: int, p: int|
                #![trigger groups@[g]@[p]]
                0 <= g < groups@.len() && 0 <= p < groups@[g]@.len() ==> groups@[g]@[p]
                    < images@.len(),
            gi <= groups@.len(),
            lines@.len() == gi,
            forall|g: int|
                0 <= g < gi ==> (#[trigger] lines@[g])@ == render_line_spec(
                    images@,
                    groups@[g]@,
                ),
        decreases groups@.len() - gi,
    {
        let line = render_line(images, &groups[gi]);
        lines.push(line);
        gi = gi + 1;
    }
    lines
}

} // verus!
