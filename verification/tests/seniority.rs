use org_core::seniority::{rank_of, rank_title, Rank};

#[test]
fn ladder_orders_ic_below_management() {
    assert!(Rank::Intern < Rank::Junior);
    assert!(Rank::Mid < Rank::Senior);
    assert!(Rank::Senior < Rank::Staff);
    assert!(Rank::Principal < Rank::Lead);
    assert!(Rank::Manager < Rank::Director);
    assert!(Rank::Vp < Rank::CLevel);
}

#[test]
fn common_titles_parse() {
    assert_eq!(rank_title("Sr Engineer"), Some(Rank::Senior));
    assert_eq!(rank_title("Senior Software Engineer"), Some(Rank::Senior));
    assert_eq!(rank_title("SWE II"), Some(Rank::Mid));
    assert_eq!(rank_title("SWE I"), Some(Rank::Junior));
    assert_eq!(rank_title("Engineer 3"), Some(Rank::Senior));
    assert_eq!(rank_title("Staff Engineer"), Some(Rank::Staff));
    assert_eq!(rank_title("Principal Analyst"), Some(Rank::Principal));
    assert_eq!(rank_title("Engineering Manager"), Some(Rank::Manager));
    assert_eq!(rank_title("Director"), Some(Rank::Director));
    assert_eq!(rank_title("VP, Sales"), Some(Rank::Vp));
    assert_eq!(rank_title("CTO"), Some(Rank::CLevel));
    assert_eq!(rank_title("Engineering Intern"), Some(Rank::Intern));
}

#[test]
fn compound_titles_take_the_higher_track() {
    // Manager outranks the "Senior" qualifier.
    assert_eq!(rank_title("Senior Engineering Manager"), Some(Rank::Manager));
    assert_eq!(rank_title("Sr Director of Product"), Some(Rank::Director));
    // Word form beats the trailing ladder number.
    assert_eq!(rank_title("Senior Engineer II"), Some(Rank::Senior));
}

#[test]
fn whole_word_matching_no_substring_hits() {
    // "sr" must not match inside another word.
    assert_eq!(rank_title("NSR Specialist"), None);
    // "Interning" is not "intern" (whole-word only).
    assert_eq!(rank_title("Interning Specialist"), None);
}

#[test]
fn unrecognized_is_none_not_a_guess() {
    assert_eq!(rank_title("Analyst"), None);
    assert_eq!(rank_title("Engineer"), None);
    assert_eq!(rank_of(None), None);
    assert_eq!(rank_of(Some("Wizard of Vibes")), None);
}

#[test]
fn case_makes_no_difference() {
    for title in ["Sr Engineer", "VP, Sales", "SWE iii", "Chief of Staff"] {
        assert_eq!(rank_title(&title.to_uppercase()), rank_title(title));
        assert_eq!(rank_title(&title.to_lowercase()), rank_title(title));
    }
}

#[test]
fn words_go_before_levels_and_higher_before_lower() {
    assert_eq!(rank_title("Junior Engineer V"), Some(Rank::Junior));
    assert_eq!(rank_title("Intern 5"), Some(Rank::Intern));
    assert_eq!(rank_title("Engineer II 4"), Some(Rank::Staff));
    assert_eq!(rank_title("Staff Lead"), Some(Rank::Lead));
    assert_eq!(rank_title("Chief of Staff"), Some(Rank::CLevel));
    assert_eq!(rank_title("Vice President"), Some(Rank::Vp));
    assert_eq!(rank_title("Mgr/Director"), Some(Rank::Director));
    assert_eq!(rank_title("Engineer 1"), Some(Rank::Junior));
    assert_eq!(rank_title("Engineer V"), Some(Rank::Principal));
}

#[test]
fn letters_and_digits_of_any_script_make_words() {
    assert_eq!(rank_title("Sr. Engineer"), Some(Rank::Senior));
    assert_eq!(rank_title("(lead)"), Some(Rank::Lead));
    assert_eq!(rank_title("ésr"), None);
    assert_eq!(rank_title("Vérificateur"), None);
    assert_eq!(rank_title("Vérificateur V"), Some(Rank::Principal));
    assert_eq!(rank_title("лид sr"), Some(Rank::Senior));
    assert_eq!(rank_title("лидsr"), None);
    assert_eq!(rank_title("sr\u{d7}lead"), Some(Rank::Lead));
    assert_eq!(rank_title("sr2"), None);
    assert_eq!(rank_of(None), None);
    assert_eq!(rank_of(Some("CTO")), Some(Rank::CLevel));
}

#[test]
fn ranks_compare_by_their_place_on_the_ladder() {
    let ladder = [
        Rank::Intern,
        Rank::Junior,
        Rank::Mid,
        Rank::Senior,
        Rank::Staff,
        Rank::Principal,
        Rank::Lead,
        Rank::Manager,
        Rank::Director,
        Rank::Vp,
        Rank::CLevel,
    ];
    for (i, a) in ladder.iter().enumerate() {
        for (j, b) in ladder.iter().enumerate() {
            assert_eq!(a < b, i < j);
            assert_eq!(a.cmp(b), i.cmp(&j));
            assert_eq!(a.partial_cmp(b), i.partial_cmp(&j));
        }
    }
}
