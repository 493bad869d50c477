use mcrl2_syntax::condition_marker::mark_process_conditions;
use mcrl2_syntax::condition_marker::CONDITION_MARKER;
use mcrl2_syntax::condition_marker::ELSE_MARKER;

/// Marks `source` and renders the result as the original text with `#` standing in for each
/// condition marker and `$` for each else marker, which makes the expected strings plain ASCII.
fn marked(source: &str) -> String {
    let (text, _) = mark_process_conditions(source);
    text.replace(CONDITION_MARKER, "#").replace(ELSE_MARKER, "$")
}

#[test]
fn test_marks_a_plain_condition() {
    assert_eq!(
        marked("proc P = a -> b <> c; init P;"),
        "proc P = #a ->$ b <> c; init P;"
    );
}

#[test]
fn test_marks_the_whole_chain_as_the_condition() {
    // Matches pest's own greedy, leftmost-first behaviour: `a+b` is one `DataExpr`, not `a`
    // choice-joined with a separate condition `b -> ...`.
    assert_eq!(marked("init a+b -> c <> d;"), "init #a+b ->$ c <> d;");
}

#[test]
fn test_marks_after_a_process_only_operator() {
    assert_eq!(marked("init a || (b -> c <> d);"), "init a || (#b ->$ c <> d);");
}

#[test]
fn test_marks_after_choice() {
    assert_eq!(marked("init a + (b -> c <> d);"), "init a + (#b ->$ c <> d);");
}

#[test]
fn test_no_condition_no_marks() {
    assert_eq!(marked("init a + b + c;"), "init a + b + c;");
}

#[test]
fn test_ignores_sort_function_arrow_in_binder() {
    assert_eq!(
        marked("proc P = sum f: Nat -> Bool . f(0) -> P <> delta; init P;"),
        "proc P = sum f: Nat -> Bool . #f(0) ->$ P <> delta; init P;"
    );
}

#[test]
fn test_ignores_data_expr_update() {
    assert_eq!(marked("init a[x -> y](1) -> b <> c;"), "init #a[x -> y](1) ->$ b <> c;");
}

#[test]
fn test_ignores_arrow_in_eqn_spec() {
    assert_eq!(marked("eqn f -> g = h;"), "eqn f -> g = h;");
}

#[test]
fn test_ignores_arrow_in_sort_spec() {
    assert_eq!(marked("sort F = Nat -> Bool; init a;"), "sort F = Nat -> Bool; init a;");
}

#[test]
fn test_marks_inside_block_operand() {
    assert_eq!(
        marked("init block({a}, x -> P <> delta);"),
        "init block({a}, #x ->$ P <> delta);"
    );
}

#[test]
fn test_marks_nested_condition_in_else_branch() {
    assert_eq!(
        marked("init a -> b <> (c -> d <> e);"),
        "init #a ->$ b <> (#c ->$ d <> e);"
    );
}

#[test]
fn test_marks_multiple_proc_decls() {
    assert_eq!(
        marked("proc P = a -> b <> c; Q = d -> e <> f; init P;"),
        "proc P = #a ->$ b <> c; Q = #d ->$ e <> f; init P;"
    );
}

#[test]
fn test_action_arguments_are_opaque() {
    // The nested call `g(x)` inside `f(...)`'s argument list must not confuse the bracket
    // matching that skips over the (opaque, DataExpr-only) argument list as a whole.
    assert_eq!(marked("init f(g(x)) -> h <> i;"), "init #f(g(x)) ->$ h <> i;");
}

// `DataExprPrefix` tokens (`!`, unary `-`, `#`, `forall`/`exists`/`lambda`) belong to the chain
// they start and must not stop the scan.

#[test]
fn test_negation_prefix_does_not_stop_the_scan() {
    assert_eq!(marked("init (!b -> P <> Q) . c;"), "init (#!b ->$ P <> Q) . c;");
}

#[test]
fn test_unary_minus_and_size_prefixes_do_not_stop_the_scan() {
    assert_eq!(
        marked("init (-n == #l -> P <> Q) . c;"),
        "init (#-n == #l ->$ P <> Q) . c;"
    );
}

#[test]
fn test_exists_prefix_does_not_stop_the_scan() {
    assert_eq!(
        marked("init (exists n:Nat . n > 0) -> P <> Q;"),
        "init #(exists n:Nat . n > 0) ->$ P <> Q;"
    );
}

#[test]
fn test_prefix_after_process_only_construct_still_scans() {
    // A `!`-negated condition following a `.`/`+`-chain must not be missed.
    assert_eq!(marked("init tau.P + (!b -> Q <> R);"), "init tau.P + (#!b ->$ Q <> R);");
}

// A chain does not extend through a parenthesized operand whose content is not itself a plain
// `DataExpr` (i.e. contains process-only syntax): `DataExprBrackets` fails to match such
// parens, so `DataExpr`'s own infix loop backtracks out instead of extending through them.
// Otherwise a stale, unrelated chain start would survive an entire if-then-else and attach to a
// `->` much later in the same operand chain.

#[test]
fn test_chain_does_not_extend_through_a_process_only_parenthesized_operand() {
    // `a(1)`'s chain correctly finds no `->` (it cannot extend through the process-only
    // parens that follow it), so it is not marked; `b(2)`'s chain — starting fresh right
    // after those parens — is the one that actually reaches the final `->`.
    assert_eq!(
        marked("init a(1).((c -> P <> Q))+b(2) -> R <> S;"),
        "init a(1).((#c ->$ P <> Q))+#b(2) ->$ R <> S;"
    );
}

#[test]
fn test_chain_does_not_extend_through_a_process_only_shape_operator() {
    assert_eq!(
        marked("init a.block({x}, c -> P <> Q)+b -> R <> S;"),
        "init a.block({x}, #c ->$ P <> Q)+#b ->$ R <> S;"
    );
}

// `Action`/`ProcExprId` accept two argument-list shapes `DataExprApplication` does not: empty
// (`f()`) and assignment-shorthand (`f(x=y)`). `DataExpr`'s postfix loop cannot consume either,
// so a chain cannot reach through them (in either direction: into them from before, or out of
// them to something after).

#[test]
fn test_empty_call_does_not_extend_a_chain() {
    assert_eq!(marked("init a.f() -> P <> Q;"), "init a.f() -> P <> Q;");
}

#[test]
fn test_assignment_shorthand_call_does_not_extend_a_chain() {
    assert_eq!(marked("init a.f(x=y) -> P <> Q;"), "init a.f(x=y) -> P <> Q;");
}

#[test]
fn test_equality_comparison_call_args_are_not_mistaken_for_assignment_shorthand() {
    // The second "=" of "==" is not a lone assignment "=": neither half of "==", "!=", "<=",
    // ">=" is ever inspected on its own.
    assert_eq!(
        marked("init a.f(b==c) + d -> P <> Q;"),
        "init #a.f(b==c) + d ->$ P <> Q;"
    );
}

#[test]
fn test_fresh_chain_starts_right_after_an_empty_call() {
    assert_eq!(marked("init a.f()+b -> P <> Q;"), "init a.f()+#b ->$ P <> Q;");
}

#[test]
fn test_mutex_turn_process_condition_after_greedy_dataexpr_prefix() {
    // The whole run `r_assign_turnA.Turn(A) + r_assign_turnB.Turn(B)` is one valid `DataExpr`
    // (`Turn(A)`/`Turn(B)` are non-empty `DataExprApplication`s), so pest's own greedy,
    // leftmost-first `DataExprIfPrefix` attempt absorbs it into the *first* condition exactly
    // as this scanner predicts — matching the source's actual structure requires the *second*
    // condition to still be found fresh, right after the first one's `then` branch ends at the
    // empty-argument `Turn()`.
    assert_eq!(
        marked(
            "proc Turn(t: TurnType) =\n    r_assign_turnA.Turn(A)\n  + r_assign_turnB.Turn(B)\n  + (t==A) -> s_read_turnA|label(a_read_turnA).Turn()\n  + (t==B) -> s_read_turnB|label(a_read_turnB).Turn();\ninit Turn(A);\n"
        ),
        "proc Turn(t: TurnType) =\n    #r_assign_turnA.Turn(A)\n  + r_assign_turnB.Turn(B)\n  + (t==A) -> s_read_turnA|label(a_read_turnA).Turn()\n  + #(t==B) -> s_read_turnB|label(a_read_turnB).Turn();\ninit Turn(A);\n"
    );
}

#[test]
fn test_a_parenthesized_condition_does_not_extend_a_chain_across_an_assignment_shorthand_then_branch() {
    // A region whose scan ends without an open chain (here: after an assignment-shorthand
    // call) is process-only, so `(cond1) -> (then1)` is not one `DataExprBrackets`-compatible
    // atom continuing into the second, unrelated `(cond2) -> ...`.
    assert_eq!(
        marked("init (a == b) -> (c . f(x = y)) + (d == e) -> g <> h;"),
        "init #(a == b) -> (c . f(x = y)) + #(d == e) ->$ g <> h;"
    );
}

// Else markers: the optional `<>` tail of a condition must only be attempted when a matching
// `<>` genuinely exists.

#[test]
fn test_bare_condition_without_else_gets_no_else_marker() {
    assert_eq!(marked("init a -> b; init c;"), "init #a -> b; init c;");
}

#[test]
fn test_condition_with_else_gets_an_else_marker() {
    assert_eq!(marked("init a -> b <> c;"), "init #a ->$ b <> c;");
}

#[test]
fn test_a_chain_of_many_bare_conditions_gets_no_else_markers() {
    // A long `+`-chain where every term is its own condition with no `<>` at all. None of them
    // should get an `ELSE_MARKER` — every
    // one of their optional tails must fail in O(1) rather than walk the rest of the chain.
    // (The second and third `CONDITION_MARKER`s land on the *preceding* `p(N)` call rather than
    // on the `(a==N)` that follows it — unrelated to this test, but expected: `p(0) + (a==1)`
    // is itself one continuous plain-`DataExpr`-shaped run reaching the next `->`, so per the
    // leftmost-subsumption rule the marker goes at its own leftmost position, same as
    // `test_marks_the_whole_chain_as_the_condition` above.)
    assert_eq!(
        marked("init (a==0) -> p(0) + (a==1) -> p(1) + (a==2) -> p(2);"),
        "init #(a==0) -> #p(0) + (a==1) -> #p(1) + (a==2) -> p(2);"
    );
}

#[test]
fn test_else_binds_to_the_nearest_enclosing_unparenthesized_if() {
    // Standard dangling-else resolution: with no parentheses to disambiguate, a `<>` closes
    // the *most recently opened* still-open condition, not an earlier one in the same chain —
    // so only `cond2` gets an `ELSE_MARKER` here, matching what pest's own greedy, depth-first
    // matching would resolve to (`cond2`'s own tail-attempt reaches the `<>` before `cond1`'s
    // ever would). (The second `CONDITION_MARKER` lands on `A`, not `cond2`, for the same
    // leftmost-subsumption reason as the test above: `A + cond2` is one continuous run.)
    assert_eq!(
        marked("init cond1 -> A + cond2 -> B <> C;"),
        "init #cond1 -> #A + cond2 ->$ B <> C;"
    );
}

#[test]
fn test_else_marker_scope_does_not_cross_a_closing_bracket() {
    // A `<>` inside `(...)` can only close an `if` that is itself inside those same parens —
    // `cond1`'s own chain must not be resolved by `cond2`'s `<>`, which is on the far side of
    // an intervening `)`.
    assert_eq!(
        marked("init cond1 -> (cond2 -> A <> B);"),
        "init #cond1 -> (#cond2 ->$ A <> B);"
    );
}

#[test]
fn test_reported_positions_point_at_the_markers() {
    let (text, positions) = mark_process_conditions("init a -> b <> c;");
    assert_eq!(positions, vec![5, 12]);
    assert_eq!(&text[5..8], CONDITION_MARKER.to_string());
    assert_eq!(&text[12..15], ELSE_MARKER.to_string());
}

#[test]
fn test_unmarked_text_is_returned_unchanged_with_no_positions() {
    let source = "sort D = struct d; map f: D -> D; var x: D; eqn f(x) = x;";
    let (text, positions) = mark_process_conditions(source);
    assert_eq!(text, source);
    assert!(positions.is_empty());
}

#[test]
fn test_erasing_the_markers_restores_the_source() {
    let source = "proc P = a -> b <> (c -> d <> e); Q = f(x) + g -> h; init P || Q;";
    let (text, positions) = mark_process_conditions(source);
    assert!(!positions.is_empty());
    let mut bytes = text.into_bytes();
    for &position in positions.iter().rev() {
        bytes.drain(position..position + 3);
    }
    assert_eq!(String::from_utf8(bytes).unwrap(), source);
}

#[test]
fn test_positions_are_strictly_increasing() {
    let (_, positions) = mark_process_conditions("proc P = a -> b <> c; Q = d -> e <> f; init P;");
    assert_eq!(positions.len(), 4);
    for pair in positions.windows(2) {
        assert!(pair[0] + 3 <= pair[1]);
    }
}

#[test]
fn test_comments_are_opaque() {
    assert_eq!(marked("init % a -> b <> c\n d -> e;"), "init % a -> b <> c\n #d -> e;");
}

#[test]
fn test_non_ascii_text_is_kept_intact() {
    assert_eq!(
        marked("% ünïcödé\ninit a -> b <> c; % ✓"),
        "% ünïcödé\ninit #a ->$ b <> c; % ✓"
    );
}

#[test]
fn test_sum_binder_is_process_only_and_its_sort_arrow_ignored() {
    assert_eq!(
        marked("init sum n: Nat -> Nat . n(1) -> a <> b;"),
        "init sum n: Nat -> Nat . #n(1) ->$ a <> b;"
    );
}

#[test]
fn test_where_clause_is_opaque() {
    assert_eq!(
        marked("init (x whr x = (y -> z) end) -> a <> b;"),
        "init #(x whr x = (y -> z) end) ->$ a <> b;"
    );
}

#[test]
fn test_at_operand_ends_the_chain() {
    assert_eq!(marked("init a@1 -> b;"), "init a@1 -> b;");
}

#[test]
fn test_unbalanced_brackets_stop_the_scan() {
    assert_eq!(marked("init (a -> b;"), "init (a -> b;");
}

#[test]
fn else_markers_follow_an_arrow_and_never_outnumber_conditions() {
    // Two `<>` but a single `->`: only one else marker, right after the arrow.
    let text = marked("init a -> b <> c <> d;");
    assert_eq!(text, "init #a ->$ b <> c <> d;");
    assert!(text.matches('$').count() <= text.matches('#').count());
    let at = text.find('$').expect("an else marker");
    assert_eq!(&text[at - 2..at], "->");
}
