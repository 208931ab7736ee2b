use vstd::prelude::*;
use crate::parser::{parse_formula, scan, scan_ok};
use crate::text::{chars_of, string_of};

verus! {

/// The binary connectives: implication, conjunction, disjunction.
pub open spec fn is_binary(c: char) -> bool {
    c == '⊃' || c == '⋀' || c == '⋁'
}

/// The first index at or after `from` that holds a binary connective, or `ops.len()`.
pub open spec fn next_binary(ops: Seq<char>, from: int) -> int
    decreases ops.len() - from,
{
    if from < 0 || from >= ops.len() {
        ops.len() as int
    } else if is_binary(ops[from]) {
        from
    } else {
        next_binary(ops, from + 1)
    }
}

/// The text of an operand: its prefix connectives, then the letter, or the group in
/// parentheses.
pub open spec fn render(prefix: Seq<char>, var: Seq<char>) -> Seq<char> {
    if var.len() == 1 {
        prefix + var
    } else {
        prefix + seq!['('] + var + seq![')']
    }
}

/// The main structure of a formula.
pub ghost enum ShapeSpec {
    /// A single letter.
    Atom,
    /// A formula wholly in parentheses, with its inner text.
    Group(Seq<char>),
    /// A prefix connective and its operand.
    Unary(char, Seq<char>),
    /// A binary connective and its two operands.
    Binary(char, Seq<char>, Seq<char>),
}

/// The structure read from a scan's operators and operands. Prefix connectives bind tighter
/// than binary ones, and the first binary connective is the main one; operands past the
/// second are ignored. `None` when an operand is missing.
pub open spec fn shape_of(ops: Seq<char>, vars: Seq<Seq<char>>) -> Option<ShapeSpec> {
    let k = next_binary(ops, 0);
    if k < ops.len() {
        if vars.len() < 2 {
            None
        } else {
            let k2 = next_binary(ops, k + 1);
            Some(
                ShapeSpec::Binary(
                    ops[k],
                    render(ops.take(k), vars[0]),
                    render(ops.subrange(k + 1, k2), vars[1]),
                ),
            )
        }
    } else if vars.len() == 0 {
        None
    } else if ops.len() > 0 {
        Some(ShapeSpec::Unary(ops[0], render(ops.drop_first(), vars[0])))
    } else if vars[0].len() == 1 {
        Some(ShapeSpec::Atom)
    } else {
        Some(ShapeSpec::Group(vars[0]))
    }
}

/// What expanding a formula does below each open terminal.
pub ghost enum RuleSpec {
    /// Nothing: a literal, kept for contradiction search.
    Literal,
    /// The formulas, one below the other.
    Extend(Seq<Seq<char>>),
    /// The formulas, each on a branch of its own.
    Fork(Seq<Seq<char>>),
    /// The formula at every accessible world.
    Necessary(Seq<char>),
    /// The formula at a new accessible world.
    Possible(Seq<char>),
}

pub open spec fn neg(s: Seq<char>) -> Seq<char> {
    seq!['¬'] + s
}

/// The rule for the negation of an operand whose own structure is `sh`: the negation is
/// pushed inward.
pub open spec fn negated_rule(sh: ShapeSpec) -> RuleSpec {
    match sh {
        ShapeSpec::Atom => RuleSpec::Literal,
        ShapeSpec::Group(y) => RuleSpec::Extend(seq![neg(seq!['('] + y + seq![')'])]),
        ShapeSpec::Unary(c, y) => if c == '◻' {
            RuleSpec::Extend(seq![seq!['◇'] + neg(y)])
        } else if c == '◇' {
            RuleSpec::Extend(seq![seq!['◻'] + neg(y)])
        } else {
            RuleSpec::Extend(seq![y])
        },
        ShapeSpec::Binary(c, a, b) => if c == '⋀' {
            RuleSpec::Fork(seq![neg(a), neg(b)])
        } else if c == '⋁' {
            RuleSpec::Extend(seq![neg(a), neg(b)])
        } else {
            RuleSpec::Extend(seq![a, neg(b)])
        },
    }
}

/// The structure of the operand of a leading negation, given the scan's operators and
/// operands: from the prefix that follows the negation when there is one, else from the scan
/// of the operand itself.
pub open spec fn negated_operand_shape(ops: Seq<char>, vars: Seq<Seq<char>>) -> Option<ShapeSpec> {
    let pre = ops.drop_first();
    if pre.len() > 0 {
        Some(ShapeSpec::Unary(pre[0], render(pre.drop_first(), vars[0])))
    } else if vars[0].len() == 1 {
        Some(ShapeSpec::Atom)
    } else if scan_ok(scan(vars[0])) {
        shape_of(scan(vars[0]).ops, scan(vars[0]).vars)
    } else {
        None
    }
}

/// The rule for formula `s`, or `None` when it (or the operand of a leading negation) cannot
/// be read.
pub open spec fn rule_of(s: Seq<char>) -> Option<RuleSpec> {
    let m = scan(s);
    if !scan_ok(m) {
        None
    } else {
        match shape_of(m.ops, m.vars) {
            None => None,
            Some(sh) => match sh {
                ShapeSpec::Atom => Some(RuleSpec::Literal),
                ShapeSpec::Group(x) => Some(RuleSpec::Extend(seq![x])),
                ShapeSpec::Binary(c, a, b) => if c == '⋀' {
                    Some(RuleSpec::Extend(seq![a, b]))
                } else if c == '⋁' {
                    Some(RuleSpec::Fork(seq![a, b]))
                } else {
                    Some(RuleSpec::Fork(seq![neg(a), b]))
                },
                ShapeSpec::Unary(c, x) => if c == '◻' {
                    Some(RuleSpec::Necessary(x))
                } else if c == '◇' {
                    Some(RuleSpec::Possible(x))
                } else {
                    match negated_operand_shape(m.ops, m.vars) {
                        None => None,
                        Some(inner) => Some(negated_rule(inner)),
                    }
                },
            },
        }
    }
}

/// The structure of a formula, with operands as character lists.
pub enum Shape {
    Atom,
    Group(Vec<char>),
    Unary(char, Vec<char>),
    Binary(char, Vec<char>, Vec<char>),
}

impl View for Shape {
    type V = ShapeSpec;

    open spec fn view(&self) -> ShapeSpec {
        match self {
            Shape::Atom => ShapeSpec::Atom,
            Shape::Group(x) => ShapeSpec::Group(x@),
            Shape::Unary(c, x) => ShapeSpec::Unary(*c, x@),
            Shape::Binary(c, a, b) => ShapeSpec::Binary(*c, a@, b@),
        }
    }
}

/// What expanding a formula does below each open terminal.
#[derive(Debug)]
pub enum Rule {
    Literal,
    Extend(Vec<String>),
    Fork(Vec<String>),
    Necessary(String),
    Possible(String),
}

impl View for Rule {
    type V = RuleSpec;

    open spec fn view(&self) -> RuleSpec {
        match self {
            Rule::Literal => RuleSpec::Literal,
            Rule::Extend(v) => RuleSpec::Extend(v@.map_values(|s: String| s@)),
            Rule::Fork(v) => RuleSpec::Fork(v@.map_values(|s: String| s@)),
            Rule::Necessary(s) => RuleSpec::Necessary(s@),
            Rule::Possible(s) => RuleSpec::Possible(s@),
        }
    }
}

fn binary_char(c: char) -> (r: bool)
    ensures
        r == is_binary(c),
{
    c == '⊃' || c == '⋀' || c == '⋁'
}

fn find_binary(ops: &Vec<char>, from: usize) -> (r: usize)
    ensures
        r == next_binary(ops@, from as int),
{
    let mut i = from;
    if i >= ops.len() {
        return ops.len();
    }
    while i < ops.len()
        invariant
            from <= i <= ops.len(),
            next_binary(ops@, from as int) == next_binary(ops@, i as int),
        decreases ops.len() - i,
    {
        if binary_char(ops[i]) {
            return i;
        }
        i = i + 1;
    }
    ops.len()
}

/// `a` followed by `b`.
fn concat(a: &Vec<char>, b: &Vec<char>) -> (r: Vec<char>)
    ensures
        r@ == a@ + b@,
{
    let mut r: Vec<char> = Vec::new();
    for i in 0..a.len()
        invariant
            r@ == a@.take(i as int),
    {
        r.push(a[i]);
        assert(a@.take(i + 1) =~= a@.take(i as int).push(a@[i as int]));
    }
    for i in 0..b.len()
        invariant
            r@ == a@ + b@.take(i as int),
    {
        r.push(b[i]);
        assert(a@ + b@.take(i + 1) =~= (a@ + b@.take(i as int)).push(b@[i as int]));
    }
    assert(a@.take(a.len() as int) =~= a@);
    assert(b@.take(b.len() as int) =~= b@);
    r
}

/// `v[lo..hi]`.
fn slice(v: &Vec<char>, lo: usize, hi: usize) -> (r: Vec<char>)
    requires
        lo <= hi <= v.len(),
    ensures
        r@ == v@.subrange(lo as int, hi as int),
{
    let mut r: Vec<char> = Vec::new();
    for i in lo..hi
        invariant
            lo <= i <= hi,
            hi <= v.len(),
            r@ == v@.subrange(lo as int, i as int),
    {
        r.push(v[i]);
        assert(v@.subrange(lo as int, i + 1) =~= v@.subrange(lo as int, i as int).push(v@[i as int]));
    }
    r
}

fn one(c: char) -> (r: Vec<char>)
    ensures
        r@ == seq![c],
{
    let mut r: Vec<char> = Vec::new();
    r.push(c);
    assert(r@ =~= seq![c]);
    r
}

fn render_exec(prefix: &Vec<char>, var: &Vec<char>) -> (r: Vec<char>)
    ensures
        r@ == render(prefix@, var@),
{
    if var.len() == 1 {
        concat(prefix, var)
    } else {
        let open = concat(prefix, &one('('));
        let inner = concat(&open, var);
        concat(&inner, &one(')'))
    }
}

fn neg_exec(s: &Vec<char>) -> (r: Vec<char>)
    ensures
        r@ == neg(s@),
{
    concat(&one('¬'), s)
}

/// The structure read from a scan's operators and operands; `None` when an operand is
/// missing.
pub fn shape(ops: &Vec<char>, vars: &Vec<Vec<char>>) -> (r: Option<Shape>)
    ensures
        match r {
            None => shape_of(ops@, vars@.map_values(|v: Vec<char>| v@)) is None,
            Some(sh) => shape_of(ops@, vars@.map_values(|v: Vec<char>| v@)) == Some(sh@),
        },
{
    let ghost vs = vars@.map_values(|v: Vec<char>| v@);
    let k = find_binary(ops, 0);
    if k < ops.len() {
        if vars.len() < 2 {
            return None;
        }
        let k2 = find_binary(ops, k + 1);
        proof {
            lemma_next_binary_bounds(ops@, k + 1);
        }
        let left = render_exec(&slice(ops, 0, k), &vars[0]);
        let right = render_exec(&slice(ops, k + 1, k2), &vars[1]);
        proof {
            assert(ops@.subrange(0, k as int) =~= ops@.take(k as int));
            assert(vs[0] == vars@[0]@ && vs[1] == vars@[1]@);
        }
        Some(Shape::Binary(ops[k], left, right))
    } else if vars.len() == 0 {
        None
    } else if ops.len() > 0 {
        let pre = slice(ops, 1, ops.len());
        proof {
            assert(pre@ =~= ops@.drop_first());
            assert(vs[0] == vars@[0]@);
        }
        Some(Shape::Unary(ops[0], render_exec(&pre, &vars[0])))
    } else if vars[0].len() == 1 {
        proof {
            assert(vs[0] == vars@[0]@);
        }
        Some(Shape::Atom)
    } else {
        proof {
            assert(vs[0] == vars@[0]@);
        }
        Some(Shape::Group(copy_chars(&vars[0])))
    }
}

proof fn lemma_next_binary_bounds(ops: Seq<char>, from: int)
    requires
        0 <= from,
    ensures
        from <= next_binary(ops, from) <= ops.len() || (from > ops.len() && next_binary(ops, from) == ops.len()),
    decreases ops.len() - from,
{
    if from < ops.len() && !is_binary(ops[from]) {
        lemma_next_binary_bounds(ops, from + 1);
    }
}

fn copy_chars(v: &Vec<char>) -> (r: Vec<char>)
    ensures
        r@ == v@,
{
    slice(v, 0, v.len())
}

fn strings_of(v: Vec<Vec<char>>) -> (r: Vec<String>)
    ensures
        r@.map_values(|s: String| s@) == v@.map_values(|c: Vec<char>| c@),
{
    let mut r: Vec<String> = Vec::new();
    for i in 0..v.len()
        invariant
            r@.len() == i,
            r@.map_values(|s: String| s@) == v@.map_values(|c: Vec<char>| c@).take(i as int),
    {
        let ghost rb = r@;
        let s = string_of(&v[i]);
        r.push(s);
        proof {
            let nv = r@.map_values(|s: String| s@);
            let ov = rb.map_values(|s: String| s@);
            let tv = v@.map_values(|c: Vec<char>| c@).take(i + 1);
            assert forall|k: int| 0 <= k < i + 1 implies #[trigger] nv[k] == tv[k] by {
                if k < i {
                    assert(r@[k] == rb[k]);
                    assert(ov[k] == v@.map_values(|c: Vec<char>| c@).take(i as int)[k]);
                }
            }
            assert(nv =~= tv);
        }
    }
    assert(v@.map_values(|c: Vec<char>| c@).take(v.len() as int) =~= v@.map_values(|c: Vec<char>| c@));
    r
}

fn single(a: Vec<char>) -> (r: Vec<String>)
    ensures
        r@.map_values(|s: String| s@) == seq![a@],
{
    let mut v: Vec<Vec<char>> = Vec::new();
    v.push(a);
    let r = strings_of(v);
    assert(v@.map_values(|c: Vec<char>| c@) =~= seq![a@]);
    r
}

fn pair(a: Vec<char>, b: Vec<char>) -> (r: Vec<String>)
    ensures
        r@.map_values(|s: String| s@) == seq![a@, b@],
{
    let mut v: Vec<Vec<char>> = Vec::new();
    v.push(a);
    v.push(b);
    let r = strings_of(v);
    assert(v@.map_values(|c: Vec<char>| c@) =~= seq![a@, b@]);
    r
}

/// The scan of `s` as character lists, or an error when it cannot be read.
fn scan_parts(s: &str) -> (r: Result<(Vec<char>, Vec<Vec<char>>), String>)
    ensures
        r is Ok <==> scan_ok(scan(s@)),
        r matches Ok((ops, vars)) ==> ops@ == scan(s@).ops && vars@.map_values(|v: Vec<char>| v@) == scan(s@).vars,
{
    let ins = match parse_formula(s) {
        Ok(ins) => ins,
        Err(e) => {
            return Err(e);
        },
    };
    let ops = chars_of(ins.operators.as_str());
    let mut vars: Vec<Vec<char>> = Vec::new();
    for i in 0..ins.variables.len()
        invariant
            vars@.len() == i,
            vars@.map_values(|v: Vec<char>| v@) == ins.vars().take(i as int),
    {
        let ghost vb = vars@;
        let cs = chars_of(ins.variables[i].as_str());
        vars.push(cs);
        proof {
            let nv = vars@.map_values(|v: Vec<char>| v@);
            let ov = vb.map_values(|v: Vec<char>| v@);
            let tv = ins.vars().take(i + 1);
            assert forall|k: int| 0 <= k < i + 1 implies #[trigger] nv[k] == tv[k] by {
                if k < i {
                    assert(vars@[k] == vb[k]);
                    assert(ov[k] == ins.vars().take(i as int)[k]);
                }
            }
            assert(nv =~= tv);
        }
    }
    assert(ins.vars().take(ins.variables.len() as int) =~= ins.vars());
    Ok((ops, vars))
}

fn negated_rule_exec(sh: Shape) -> (r: Rule)
    ensures
        r@ == negated_rule(sh@),
{
    match sh {
        Shape::Atom => Rule::Literal,
        Shape::Group(y) => {
            let inner = concat(&concat(&one('('), &y), &one(')'));
            Rule::Extend(single(neg_exec(&inner)))
        },
        Shape::Unary(c, y) => {
            if c == '◻' {
                Rule::Extend(single(concat(&one('◇'), &neg_exec(&y))))
            } else if c == '◇' {
                Rule::Extend(single(concat(&one('◻'), &neg_exec(&y))))
            } else {
                Rule::Extend(single(y))
            }
        },
        Shape::Binary(c, a, b) => {
            if c == '⋀' {
                Rule::Fork(pair(neg_exec(&a), neg_exec(&b)))
            } else if c == '⋁' {
                Rule::Extend(pair(neg_exec(&a), neg_exec(&b)))
            } else {
                let nb = neg_exec(&b);
                Rule::Extend(pair(a, nb))
            }
        },
    }
}

/// The rule for expanding formula `s`; an error when it, or the operand of a leading
/// negation, cannot be read or lacks an operand.
pub fn rule_for(s: &str) -> (r: Result<Rule, String>)
    ensures
        match r {
            Ok(rule) => rule_of(s@) == Some(rule@),
            Err(_) => rule_of(s@) is None,
        },
{
    let (ops, vars) = match scan_parts(s) {
        Ok(p) => p,
        Err(e) => {
            return Err(e);
        },
    };
    let ghost vs = vars@.map_values(|v: Vec<char>| v@);
    let sh = match shape(&ops, &vars) {
        Some(sh) => sh,
        None => {
            return Err("Too few operands".to_string());
        },
    };
    match sh {
        Shape::Atom => Ok(Rule::Literal),
        Shape::Group(x) => Ok(Rule::Extend(single(x))),
        Shape::Binary(c, a, b) => {
            if c == '⋀' {
                Ok(Rule::Extend(pair(a, b)))
            } else if c == '⋁' {
                Ok(Rule::Fork(pair(a, b)))
            } else {
                let na = neg_exec(&a);
                Ok(Rule::Fork(pair(na, b)))
            }
        },
        Shape::Unary(c, x) => {
            if c == '◻' {
                Ok(Rule::Necessary(string_of(&x)))
            } else if c == '◇' {
                Ok(Rule::Possible(string_of(&x)))
            } else {
                // A leading negation: find the structure of its operand.
                proof {
                    assert(vs[0] == vars@[0]@);
                }
                let inner = if ops.len() > 1 {
                    let pre = slice(&ops, 1, ops.len());
                    let rest = slice(&pre, 1, pre.len());
                    proof {
                        assert(pre@ =~= ops@.drop_first());
                        assert(rest@ =~= pre@.drop_first());
                    }
                    Shape::Unary(pre[0], render_exec(&rest, &vars[0]))
                } else if vars[0].len() == 1 {
                    Shape::Atom
                } else {
                    let text = string_of(&vars[0]);
                    let (ops2, vars2) = match scan_parts(text.as_str()) {
                        Ok(p) => p,
                        Err(e) => {
                            return Err(e);
                        },
                    };
                    match shape(&ops2, &vars2) {
                        Some(sh2) => sh2,
                        None => {
                            return Err("Too few operands".to_string());
                        },
                    }
                };
                proof {
                    assert(ops@.drop_first().len() == ops@.len() - 1);
                }
                Ok(negated_rule_exec(inner))
            }
        },
    }
}

/// The letter of an atomic formula, or `None` when `s` is not a single atom.
pub open spec fn atom_of(s: Seq<char>) -> Option<Seq<char>> {
    let m = scan(s);
    if scan_ok(m) && shape_of(m.ops, m.vars) == Some(ShapeSpec::Atom) {
        Some(m.vars[0])
    } else {
        None
    }
}

/// The letter of an atomic formula, or `None` when `s` is not a single atom.
pub fn atom(s: &str) -> (r: Option<String>)
    ensures
        match r {
            None => atom_of(s@) is None,
            Some(a) => atom_of(s@) == Some(a@),
        },
{
    let (ops, vars) = match scan_parts(s) {
        Ok(p) => p,
        Err(_) => {
            return None;
        },
    };
    let ghost vs = vars@.map_values(|v: Vec<char>| v@);
    match shape(&ops, &vars) {
        Some(Shape::Atom) => {
            assert(vs[0] == vars@[0]@);
            Some(string_of(&vars[0]))
        },
        _ => None,
    }
}

/// `s` reads, and has more operands than its main connective takes (two for a binary one,
/// else one); the rules ignore the surplus.
pub open spec fn has_surplus_operands(s: Seq<char>) -> bool {
    let m = scan(s);
    let arity: nat = if next_binary(m.ops, 0) < m.ops.len() { 2 } else { 1 };
    scan_ok(m) && m.vars.len() > arity
}

/// Whether formula `s` has operands beyond what its main connective takes.
pub fn surplus_operands(s: &str) -> (r: bool)
    ensures
        r == has_surplus_operands(s@),
{
    let (ops, vars) = match scan_parts(s) {
        Ok(p) => p,
        Err(_) => {
            return false;
        },
    };
    let ghost vs = vars@.map_values(|v: Vec<char>| v@);
    assert(vs.len() == vars@.len());
    let arity: usize = if find_binary(&ops, 0) < ops.len() { 2 } else { 1 };
    vars.len() > arity
}

} // verus!
