use vstd::prelude::*;
use crate::text::{chars_of, string_of};

verus! {

/// Whether `c` has the Unicode Alphabetic property.
pub uninterp spec fn alphabetic(c: char) -> bool;

/// Relies on `char::is_alphabetic`: the Unicode Alphabetic property of `c`, which holds of
/// the ASCII letters.
#[verifier::external_body]
fn is_alphabetic(c: char) -> (r: bool)
    ensures
        r == alphabetic(c),
        is_ascii_letter(c) ==> r,
{
    c.is_alphabetic()
}

/// The connectives: material implication, negation, conjunction, disjunction, necessity and
/// possibility.
pub open spec fn is_operator(c: char) -> bool {
    c == '⊃' || c == '¬' || c == '⋀' || c == '⋁' || c == '◻' || c == '◇'
}

fn operator_char(c: char) -> (r: bool)
    ensures
        r == is_operator(c),
{
    c == '⊃' || c == '¬' || c == '⋀' || c == '⋁' || c == '◻' || c == '◇'
}

/// What the scan of a formula has seen so far: the nesting depth of parentheses, the text of
/// the group being read, the operators and operands found at the top level, and whether a
/// character could not be read.
pub ghost struct ScanModel {
    pub depth: nat,
    pub group: Seq<char>,
    pub ops: Seq<char>,
    pub vars: Seq<Seq<char>>,
    pub failed: bool,
}

/// One character of the scan; `alpha` is whether `c` is alphabetic. At the top level a space
/// is skipped, an operator is recorded, a letter is an operand of its own, and `(` opens a
/// group whose text, up to the matching `)`, becomes one operand. Anything else fails.
pub open spec fn scan_step(m: ScanModel, c: char, alpha: bool) -> ScanModel {
    if m.failed {
        m
    } else if m.depth == 0 {
        if c == ' ' {
            m
        } else if c == '(' {
            ScanModel { depth: 1, ..m }
        } else if is_operator(c) {
            ScanModel { ops: m.ops.push(c), ..m }
        } else if alpha {
            ScanModel { vars: m.vars.push(seq![c]), ..m }
        } else {
            ScanModel { failed: true, ..m }
        }
    } else if c == ')' && m.depth == 1 {
        ScanModel { depth: 0, group: Seq::empty(), vars: m.vars.push(m.group), ..m }
    } else if c == ')' {
        ScanModel { depth: (m.depth - 1) as nat, group: m.group.push(c), ..m }
    } else if c == '(' {
        ScanModel { depth: m.depth + 1, group: m.group.push(c), ..m }
    } else {
        ScanModel { group: m.group.push(c), ..m }
    }
}

pub open spec fn scan_start() -> ScanModel {
    ScanModel { depth: 0, group: Seq::empty(), ops: Seq::empty(), vars: Seq::empty(), failed: false }
}

/// The scan of the first `i` characters of `s`.
pub open spec fn scan_prefix(s: Seq<char>, i: nat) -> ScanModel
    decreases i,
{
    if i == 0 || i > s.len() {
        scan_start()
    } else {
        scan_step(scan_prefix(s, (i - 1) as nat), s[i - 1], alphabetic(s[i - 1]))
    }
}

/// The scan of all of `s`.
pub open spec fn scan(s: Seq<char>) -> ScanModel {
    scan_prefix(s, s.len())
}

/// A scan that read every character. A group still open at the end is dropped.
pub open spec fn scan_ok(m: ScanModel) -> bool {
    !m.failed
}

/// An ASCII letter.
pub open spec fn is_ascii_letter(c: char) -> bool {
    ('a' <= c <= 'z') || ('A' <= c <= 'Z')
}

/// The decomposition of a formula: its top-level operators, in order, and its operands, each
/// a single letter or the text of a parenthesised group.
#[derive(Debug, PartialEq)]
pub struct Instructions {
    pub operators: String,
    pub variables: Vec<String>,
}

impl Instructions {
    pub open spec fn ops(&self) -> Seq<char> {
        self.operators@
    }

    pub open spec fn vars(&self) -> Seq<Seq<char>> {
        self.variables@.map_values(|v: String| v@)
    }

    pub fn operators(&self) -> (r: &String)
        ensures
            r@ == self.ops(),
    {
        &self.operators
    }

    pub fn variables(&self) -> (r: &Vec<String>)
        ensures
            r@ == self.variables@,
    {
        &self.variables
    }
}

/// A scan in progress over the characters of a formula.
pub struct Scanner {
    depth: usize,
    group: Vec<char>,
    ops: Vec<char>,
    vars: Vec<Vec<char>>,
    failed: bool,
}

impl View for Scanner {
    type V = ScanModel;

    closed spec fn view(&self) -> ScanModel {
        ScanModel {
            depth: self.depth as nat,
            group: self.group@,
            ops: self.ops@,
            vars: self.vars@.map_values(|v: Vec<char>| v@),
            failed: self.failed,
        }
    }
}

impl Scanner {
    pub fn new() -> (r: Scanner)
        ensures
            r@ == scan_start(),
    {
        let r = Scanner { depth: 0, group: Vec::new(), ops: Vec::new(), vars: Vec::new(), failed: false };
        assert(r@.vars =~= Seq::<Seq<char>>::empty());
        r
    }

    /// Reads one character; `alpha` says whether it is alphabetic.
    pub fn step(&mut self, c: char, alpha: bool)
        requires
            old(self)@.depth < usize::MAX,
        ensures
            final(self)@ == scan_step(old(self)@, c, alpha),
    {
        let ghost m = self@;
        if self.failed {
            return;
        }
        if self.depth == 0 {
            if c == ' ' {
            } else if c == '(' {
                self.depth = 1;
            } else if operator_char(c) {
                self.ops.push(c);
            } else if alpha {
                let mut v: Vec<char> = Vec::new();
                v.push(c);
                self.vars.push(v);
                assert(self@.vars =~= m.vars.push(seq![c]));
            } else {
                self.failed = true;
            }
        } else if c == ')' && self.depth == 1 {
            let mut group: Vec<char> = Vec::new();
            std::mem::swap(&mut self.group, &mut group);
            self.vars.push(group);
            self.depth = 0;
            assert(self@.vars =~= m.vars.push(m.group));
        } else {
            if c == ')' {
                self.depth = self.depth - 1;
            } else if c == '(' {
                self.depth = self.depth + 1;
            }
            self.group.push(c);
        }
        assert(self@ == scan_step(m, c, alpha));
    }

    /// The operators and operands read, or an error when a character could not be read. A
    /// group still open is dropped.
    pub fn finish(self) -> (r: Result<Instructions, String>)
        ensures
            r is Ok <==> scan_ok(self@),
            r matches Ok(ins) ==> ins.ops() == self@.ops && ins.vars() == self@.vars,
    {
        if self.failed {
            return Err("Unable to parse formula: unexpected character".to_string());
        }
        let operators = string_of(&self.ops);
        let mut variables: Vec<String> = Vec::new();
        for i in 0..self.vars.len()
            invariant
                variables@.len() == i,
                self@.vars.len() == self.vars@.len(),
                variables@.map_values(|v: String| v@) == self@.vars.take(i as int),
        {
            let ghost vb = variables@;
            let v = string_of(&self.vars[i]);
            variables.push(v);
            proof {
                assert(self@.vars[i as int] == self.vars@[i as int]@);
                assert(variables@ == vb.push(v));
                assert(vb.map_values(|v: String| v@) == self@.vars.take(i as int));
                let nv = variables@.map_values(|v: String| v@);
                let ov = vb.map_values(|v: String| v@);
                let tv = self@.vars.take(i + 1);
                assert forall|k: int| 0 <= k < i + 1 implies #[trigger] nv[k] == tv[k] by {
                    if k < i {
                        assert(variables@[k] == vb[k]);
                        assert(ov[k] == self@.vars.take(i as int)[k]);
                    }
                }
                assert(nv =~= tv);
            }
        }
        assert(self@.vars.take(self.vars.len() as int) =~= self@.vars);
        Ok(Instructions { operators, variables })
    }
}

/// Splits a formula into its top-level operators and operands. Fails on a character that is
/// neither a space, a parenthesis, a connective nor a letter at the top level (a `)` with no
/// group open among them). A group left open at the end is dropped.
pub fn parse_formula(formula: &str) -> (r: Result<Instructions, String>)
    ensures
        forall|i: int| 0 <= i < formula@.len() && is_ascii_letter(#[trigger] formula@[i]) ==> alphabetic(formula@[i]),
        r is Ok <==> scan_ok(scan(formula@)),
        r matches Ok(ins) ==> ins.ops() == scan(formula@).ops && ins.vars() == scan(formula@).vars,
{
    let cs = chars_of(formula);
    let mut scanner = Scanner::new();
    for i in 0..cs.len()
        invariant
            cs@ == formula@,
            scanner@ == scan_prefix(formula@, i as nat),
            scanner@.depth <= i,
            forall|j: int| 0 <= j < i && is_ascii_letter(#[trigger] formula@[j]) ==> alphabetic(formula@[j]),
    {
        let c = cs[i];
        let alpha = is_alphabetic(c);
        scanner.step(c, alpha);
    }
    scanner.finish()
}

} // verus!
