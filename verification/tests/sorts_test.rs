use mcrl2_syntax::sorts::related_container;
use mcrl2_syntax::sorts::related_numbers;
use mcrl2_syntax::sorts::ComplexSort;
use mcrl2_syntax::sorts::Direction;
use mcrl2_syntax::sorts::Sort;

#[test]
fn related_numbers_go_up_and_down_the_number_sorts() {
    assert_eq!(related_numbers(Sort::Pos, Direction::Super), vec![Sort::Nat, Sort::Int, Sort::Real]);
    assert_eq!(related_numbers(Sort::Real, Direction::Sub), vec![Sort::Int, Sort::Nat, Sort::Pos]);
    assert_eq!(related_numbers(Sort::Nat, Direction::Sub), vec![Sort::Pos]);
    assert!(related_numbers(Sort::Pos, Direction::Sub).is_empty());
    assert!(related_numbers(Sort::Bool, Direction::Super).is_empty());
}

#[test]
fn related_containers_follow_finiteness() {
    assert_eq!(related_container(ComplexSort::FSet, Direction::Super), Some(ComplexSort::SetSort));
    assert_eq!(related_container(ComplexSort::Bag, Direction::Sub), Some(ComplexSort::FBag));
    assert_eq!(related_container(ComplexSort::List, Direction::Super), None);
    assert_eq!(related_container(ComplexSort::SetSort, Direction::Super), None);
}
