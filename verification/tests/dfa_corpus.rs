use re::parser::parse;

/// Compiles `pattern` and matches `text` against it through the DFA overlay.
fn matches(pattern: &str, text: &str) -> Option<bool> {
    match parse(pattern) {
        Ok(nfa) => Some(re::dfa::walk_dfa(nfa, text.to_string())),
        Err(_) => None,
    }
}

#[test]
fn dfa_test0() {
    assert_eq!(matches("cc|a*x", "z"), Some(false));
}

#[test]
fn dfa_test1() {
    assert_eq!(matches("(a)(b)(c)(d)(e)(f)(g)(h)(i)(j)(k)(l)9", "abcdefghijkl9"), Some(true));
}

#[test]
fn dfa_test2() {
    assert_eq!(matches("a.b", "acb"), Some(true));
}

#[test]
fn dfa_test3() {
    assert!(matches(")", "").is_none());
}

#[test]
fn dfa_test4() {
    assert_eq!(matches("", ""), Some(true));
}

#[test]
fn dfa_test5() {
    assert_eq!(matches("abc", "abc"), Some(true));
}

#[test]
fn dfa_test6() {
    assert_eq!(matches("abc", "xbc"), Some(false));
}

#[test]
fn dfa_test7() {
    assert_eq!(matches("abc", "axc"), Some(false));
}

#[test]
fn dfa_test8() {
    assert_eq!(matches("abc", "abx"), Some(false));
}

#[test]
fn dfa_test9() {
    assert_eq!(matches("abc", "xabcy"), Some(true));
}

#[test]
fn dfa_test10() {
    assert_eq!(matches("abc", "ababc"), Some(true));
}

#[test]
fn dfa_test11() {
    assert_eq!(matches("ab*c", "abc"), Some(true));
}

#[test]
fn dfa_test12() {
    assert_eq!(matches("ab*bc", "abc"), Some(true));
}

#[test]
fn dfa_test13() {
    assert_eq!(matches("ab*bc", "abbc"), Some(true));
}

#[test]
fn dfa_test14() {
    assert_eq!(matches("ab*bc", "abbbbc"), Some(true));
}

#[test]
fn dfa_test15() {
    assert_eq!(matches("ab+bc", "abbc"), Some(true));
}

#[test]
fn dfa_test16() {
    assert_eq!(matches("ab+bc", "abc"), Some(false));
}

#[test]
fn dfa_test17() {
    assert_eq!(matches("ab+bc", "abq"), Some(false));
}

#[test]
fn dfa_test18() {
    assert_eq!(matches("ab+bc", "abbbbc"), Some(true));
}

#[test]
fn dfa_test19() {
    assert_eq!(matches("ab?bc", "abbc"), Some(true));
}

#[test]
fn dfa_test20() {
    assert_eq!(matches("ab?bc", "abc"), Some(true));
}

#[test]
fn dfa_test21() {
    assert_eq!(matches("ab?bc", "abbbbc"), Some(false));
}

#[test]
fn dfa_test22() {
    assert_eq!(matches("ab?c", "abc"), Some(true));
}

#[test]
fn dfa_test23() {
    assert_eq!(matches("^abc$", "abc"), Some(true));
}

#[test]
fn dfa_test24() {
    assert_eq!(matches("^abc$", "abcc"), Some(false));
}

#[test]
fn dfa_test25() {
    assert_eq!(matches("^abc", "abcc"), Some(true));
}

#[test]
fn dfa_test26() {
    assert_eq!(matches("^abc$", "aabc"), Some(false));
}

#[test]
fn dfa_test27() {
    assert_eq!(matches("abc$", "aabc"), Some(true));
}

#[test]
fn dfa_test28() {
    assert_eq!(matches("^", "abc"), Some(true));
}

#[test]
fn dfa_test29() {
    assert_eq!(matches("$", "abc"), Some(true));
}

#[test]
fn dfa_test30() {
    assert_eq!(matches("a.c", "abc"), Some(true));
}

#[test]
fn dfa_test31() {
    assert_eq!(matches("a.c", "axc"), Some(true));
}

#[test]
fn dfa_test32() {
    assert_eq!(matches("a.*c", "axyzc"), Some(true));
}

#[test]
fn dfa_test33() {
    assert_eq!(matches("a.*c", "axyzd"), Some(false));
}

#[test]
fn dfa_test34() {
    assert_eq!(matches("a[bc]d", "abc"), Some(false));
}

#[test]
fn dfa_test35() {
    assert_eq!(matches("a[bc]d", "abd"), Some(true));
}

#[test]
fn dfa_test40() {
    assert_eq!(matches("a[\\-b]", "a-"), Some(true));
}

#[test]
fn dfa_test41() {
    assert!(matches("a[]b", "-").is_none());
}

#[test]
fn dfa_test42() {
    assert!(matches("a[", "-").is_none());
}

#[test]
fn dfa_test43() {
    assert!(matches("a\\", "-").is_none());
}

#[test]
fn dfa_test44() {
    assert!(matches("abc)", "-").is_none());
}

#[test]
fn dfa_test45() {
    assert!(matches("(abc", "-").is_none());
}

#[test]
fn dfa_test46() {
    assert_eq!(matches("a]", "a]"), Some(true));
}

#[test]
fn dfa_test47() {
    assert_eq!(matches("a[]]b", "a]b"), Some(true));
}

#[test]
fn dfa_test48() {
    assert_eq!(matches("a[\\]]b", "a]b"), Some(true));
}

#[test]
fn dfa_test49() {
    assert_eq!(matches("a[^bc]d", "aed"), Some(true));
}

#[test]
fn dfa_test50() {
    assert_eq!(matches("a[^bc]d", "abd"), Some(false));
}

#[test]
fn dfa_test53() {
    assert_eq!(matches("a[^]b]c", "a]c"), Some(false));
}

#[test]
fn dfa_test54() {
    assert_eq!(matches("a[^]b]c", "adc"), Some(true));
}

#[test]
fn dfa_test74() {
    assert_eq!(matches("ab|cd", "abc"), Some(true));
}

#[test]
fn dfa_test75() {
    assert_eq!(matches("ab|cd", "abcd"), Some(true));
}

#[test]
fn dfa_test76() {
    assert_eq!(matches("()ef", "def"), Some(true));
}

#[test]
fn dfa_test77() {
    assert_eq!(matches("$b", "b"), Some(false));
}

#[test]
fn dfa_test78() {
    assert_eq!(matches("a\\(b", "a(b"), Some(true));
}

#[test]
fn dfa_test79() {
    assert_eq!(matches("a\\(*b", "ab"), Some(true));
}

#[test]
fn dfa_test80() {
    assert_eq!(matches("a\\(*b", "a((b"), Some(true));
}

#[test]
fn dfa_test81() {
    assert_eq!(matches("a\\\\b", "a\\b"), Some(true));
}

#[test]
fn dfa_test82() {
    assert_eq!(matches("((a))", "abc"), Some(true));
}

#[test]
fn dfa_test83() {
    assert_eq!(matches("(a)b(c)", "abc"), Some(true));
}

#[test]
fn dfa_test84() {
    assert_eq!(matches("a+b+c", "aabbabc"), Some(true));
}

#[test]
fn dfa_test85() {
    assert_eq!(matches("(a+|b)*", "ab"), Some(true));
}

#[test]
fn dfa_test86() {
    assert_eq!(matches("(a+|b)+", "ab"), Some(true));
}

#[test]
fn dfa_test87() {
    assert_eq!(matches("(a+|b)?", "ab"), Some(true));
}

#[test]
fn dfa_test88() {
    assert!(matches(")(", "-").is_none());
}

#[test]
fn dfa_test89() {
    assert_eq!(matches("[^ab]*", "cde"), Some(true));
}

#[test]
fn dfa_test90() {
    assert_eq!(matches("abc", ""), Some(false));
}

#[test]
fn dfa_test91() {
    assert_eq!(matches("a*", ""), Some(true));
}

#[test]
fn dfa_test92() {
    assert_eq!(matches("a|b|c|d|e", "e"), Some(true));
}

#[test]
fn dfa_test93() {
    assert_eq!(matches("(a|b|c|d|e)f", "ef"), Some(true));
}

#[test]
fn dfa_test94() {
    assert_eq!(matches("abcd*efg", "abcdefg"), Some(true));
}

#[test]
fn dfa_test95() {
    assert_eq!(matches("ab*", "xabyabbbz"), Some(true));
}

#[test]
fn dfa_test96() {
    assert_eq!(matches("ab*", "xayabbbz"), Some(true));
}

#[test]
fn dfa_test97() {
    assert_eq!(matches("(ab|cd)e", "abcde"), Some(true));
}

#[test]
fn dfa_test98() {
    assert_eq!(matches("[abhgefdc]ij", "hij"), Some(true));
}

#[test]
fn dfa_test99() {
    assert_eq!(matches("^(ab|cd)e", "abcde"), Some(false));
}

#[test]
fn dfa_test100() {
    assert_eq!(matches("(abc|)ef", "abcdef"), Some(true));
}

#[test]
fn dfa_test101() {
    assert_eq!(matches("(a|b)c*d", "abcd"), Some(true));
}

#[test]
fn dfa_test102() {
    assert_eq!(matches("(ab|ab*)bc", "abc"), Some(true));
}

#[test]
fn dfa_test103() {
    assert_eq!(matches("a([bc]*)c*", "abc"), Some(true));
}

#[test]
fn dfa_test104() {
    assert_eq!(matches("a([bc]*)(c*d)", "abcd"), Some(true));
}

#[test]
fn dfa_test105() {
    assert_eq!(matches("a([bc]+)(c*d)", "abcd"), Some(true));
}

#[test]
fn dfa_test106() {
    assert_eq!(matches("a([bc]*)(c+d)", "abcd"), Some(true));
}

#[test]
fn dfa_test107() {
    assert_eq!(matches("a[bcd]*dcdcde", "adcdcde"), Some(true));
}

#[test]
fn dfa_test108() {
    assert_eq!(matches("a[bcd]+dcdcde", "adcdcde"), Some(false));
}

#[test]
fn dfa_test109() {
    assert_eq!(matches("(ab|a)b*c", "abc"), Some(true));
}

#[test]
fn dfa_test110() {
    assert_eq!(matches("((a)(b)c)(d)", "abcd"), Some(true));
}

#[test]
fn dfa_test112() {
    assert_eq!(matches("^a(bc+|b[eh])g|.h$", "abh"), Some(true));
}

#[test]
fn dfa_test113() {
    assert_eq!(matches("(bc+d$|ef*g.|h?i(j|k))", "effgz"), Some(true));
}

#[test]
fn dfa_test114() {
    assert_eq!(matches("(bc+d$|ef*g.|h?i(j|k))", "ij"), Some(true));
}

#[test]
fn dfa_test115() {
    assert_eq!(matches("(bc+d$|ef*g.|h?i(j|k))", "effg"), Some(false));
}

#[test]
fn dfa_test116() {
    assert_eq!(matches("(bc+d$|ef*g.|h?i(j|k))", "bcdd"), Some(false));
}

#[test]
fn dfa_test117() {
    assert_eq!(matches("(bc+d$|ef*g.|h?i(j|k))", "reffgz"), Some(true));
}

#[test]
fn dfa_test118() {
    assert_eq!(matches("(((((((((a)))))))))", "a"), Some(true));
}

#[test]
fn dfa_test119() {
    assert_eq!(matches("multiple words of text", "uh-uh"), Some(false));
}

#[test]
fn dfa_test120() {
    assert_eq!(matches("multiple words", "multiple words, yeah"), Some(true));
}

#[test]
fn dfa_test121() {
    assert_eq!(matches("(.*)c(.*)", "abcde"), Some(true));
}

#[test]
fn dfa_test122() {
    assert_eq!(matches("\\((.*), (.*)\\)", "(a, b)"), Some(true));
}

#[test]
fn dfa_test124() {
    assert_eq!(matches("[k]", "ab"), Some(false));
}

#[test]
fn dfa_test128() {
    assert_eq!(matches("^(.+)?B", "AB"), Some(true));
}

#[test]
fn dfa_test129() {
    assert_eq!(matches("(a)(b)c|ab", "ab"), Some(true));
}

#[test]
fn dfa_test130() {
    assert_eq!(matches("(a)+x", "aaax"), Some(true));
}

#[test]
fn dfa_test131() {
    assert_eq!(matches("([ac])+x", "aacx"), Some(true));
}

#[test]
fn dfa_test132() {
    assert_eq!(matches("([^/]*/)*sub1/", "d:msgs/tdir/sub1/trial/away.cpp"), Some(true));
}

#[test]
fn dfa_test133() {
    assert_eq!(matches("([^.]*)\\.([^:]*):[T ]+(.*)", "track1.title:TBlah blah blah"), Some(true));
}

#[test]
fn dfa_test134() {
    assert_eq!(matches("([^N]*N)+", "abNNxyzN"), Some(true));
}

#[test]
fn dfa_test135() {
    assert_eq!(matches("([^N]*N)+", "abNNxyz"), Some(true));
}

#[test]
fn dfa_test136() {
    assert_eq!(matches("([abc]*)x", "abcx"), Some(true));
}

#[test]
fn dfa_test137() {
    assert_eq!(matches("([abc]*)x", "abc"), Some(false));
}

#[test]
fn dfa_test138() {
    assert_eq!(matches("([xyz]*)x", "abcx"), Some(true));
}

#[test]
fn dfa_test139() {
    assert_eq!(matches("(a)+b|aac", "aac"), Some(true));
}

#[test]
fn dfa_test150() {
    assert!(matches("*a", "-").is_none());
}

#[test]
fn dfa_test151() {
    assert!(matches("(*)b", "-").is_none());
}

#[test]
fn dfa_test153() {
    assert!(matches("a**", "-").is_none());
}

#[test]
fn dfa_test158() {
    assert_eq!(matches("([abc])*d", "abbbcd"), Some(true));
}

#[test]
fn dfa_test159() {
    assert_eq!(matches("([abc])*bcd", "abcd"), Some(true));
}

#[test]
fn dfa_test160() {
    assert_eq!(matches("((((((((((a))))))))))", "a"), Some(true));
}

#[test]
fn dfa_test161() {
    assert_eq!(matches("a[-]?c", "ac"), Some(true));
}

#[test]
fn dfa_test162() {
    assert_eq!(matches("^(.+)?B", "AB"), Some(true));
}
