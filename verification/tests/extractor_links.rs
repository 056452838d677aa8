use nthw::extractor::extract_titles_and_urls;

    #[test]
    fn extracts_every_link() {
        const CONTENT: &str = r#"# Not The Hidden Wiki

        🎓 Akademia NTHW - Lista szkoleń którymi warto się zainteresować (tylko po Polsku)
        -----
        
        1. Szkoła Security: Security Starter - [link](https://l.szkolasecurity.pl/starter/) 86. Szkoła Security2: Security Starter2 - [link](https://l.szkolasecurity.pl/starter2/)
        2. Szkoła Security: Testowanie Bezpieczeństwa Web Aplikacji Masters - [link](https://szkolasecurity.pl/tbwam/)
        3. Szkoła Security: Security Analyst Krok Pierwszy - [link](https://szkolasecurity.pl/blue1/)
        4. Szkoła Security: Python Dla Bezpieczników - [link](https://szkolasecurity.pl/python/)
        5. Szkoła Security: WiFi King - [link](https://szkolasecurity.pl/wifi/)
        6. Szkoła Security: Bezpieczeństwo API i GraphQL - [link](https://szkolasecurity.pl/bezpieczenstwo-api-i-graphql/)
        7. Docker Maestro - [link](https://dockermaestro.pl/)
        8. Automation Maestro - [link](https://automationmaestro.pl/)
        9. Helm Maestro - [link](https://helmmaestro.pl/)
        10. Kubernetes Maestro - [link](https://kubernetesmaestro.pl/)
        11. Auditor Wiodący Systemu Zarządzania Bezpieczeństwem Informacji wg ISO/IEC 27001:2022 - [link](https://www.bsigroup.com/pl-PL/ISO-IEC-27001-Bezpieczenstwo-Informacji/Szkolenia-dla-ISO-IEC-27001/Auditor-wiodacy/)
        12. Auditor Wewnętrzny Systemu Zarządzania Bezpieczeństwem Informacji wg ISO/IEC 27001:2022 - [link](https://www.bsigroup.com/pl-PL/ISO-IEC-27001-Bezpieczenstwo-Informacji/Szkolenia-dla-ISO-IEC-27001/Auditor-Wewnetrzny/)
        13. AI Devs - [link](https://www.aidevs.pl/)
        14. Cyfrowe Ataki: Jak nie dać się oszukać - [link](https://sklep.szurek.tv/cyfrowe-ataki)
        15. Bezpieczny Programista: Odkryj tajemnice bezpieczeństwa aplikacji webowych! - [link](https://sklep.szurek.tv/bezpieczny-programista)"
        assert_eq!(2 + 2, 4);"#;
        let expected_links = [
        ("Szkoła Security: Security Starter", "https://l.szkolasecurity.pl/starter/"),
        ("Szkoła Security2: Security Starter2", "https://l.szkolasecurity.pl/starter2/"),
        ("Szkoła Security: Testowanie Bezpieczeństwa Web Aplikacji Masters", "https://szkolasecurity.pl/tbwam/"),
        ("Szkoła Security: Security Analyst Krok Pierwszy", "https://szkolasecurity.pl/blue1/"),
        ("Szkoła Security: Python Dla Bezpieczników", "https://szkolasecurity.pl/python/"),
        ("Szkoła Security: WiFi King", "https://szkolasecurity.pl/wifi/"),
        ("Szkoła Security: Bezpieczeństwo API i GraphQL", "https://szkolasecurity.pl/bezpieczenstwo-api-i-graphql/"),
        ("Docker Maestro", "https://dockermaestro.pl/"),
        ("Automation Maestro", "https://automationmaestro.pl/"),
        ("Helm Maestro", "https://helmmaestro.pl/"),
        ("Kubernetes Maestro", "https://kubernetesmaestro.pl/"),
        ("Auditor Wiodący Systemu Zarządzania Bezpieczeństwem Informacji wg ISO/IEC 27001:2022", "https://www.bsigroup.com/pl-PL/ISO-IEC-27001-Bezpieczenstwo-Informacji/Szkolenia-dla-ISO-IEC-27001/Auditor-wiodacy/"),
        ("Auditor Wewnętrzny Systemu Zarządzania Bezpieczeństwem Informacji wg ISO/IEC 27001:2022", "https://www.bsigroup.com/pl-PL/ISO-IEC-27001-Bezpieczenstwo-Informacji/Szkolenia-dla-ISO-IEC-27001/Auditor-Wewnetrzny/"),
        ("AI Devs", "https://www.aidevs.pl/"),
        ("Cyfrowe Ataki: Jak nie dać się oszukać", "https://sklep.szurek.tv/cyfrowe-ataki"),
        ("Bezpieczny Programista: Odkryj tajemnice bezpieczeństwa aplikacji webowych!", "https://sklep.szurek.tv/bezpieczny-programista"),
        ];
        let extracted_links = extract_titles_and_urls(CONTENT);
        assert_eq!(extracted_links, expected_links)
    }

    #[test]
    fn extracts_every_link_bscp() {
        const CONTENT: &str = r#"# Not The Hidden Wiki

        💥 BSCP Notes
        -----
        
        1. BSCP Methodology - [link](https://bscpcheatsheet.gitbook.io/exam)
        2. My experience (and tips) on the Burp Suite Certified Practitioner exam - [link](https://thelicato.medium.com/my-experience-and-tips-on-the-burp-suite-certified-practitioner-exam-1834e31465f8)
        3. Ultimate Burp Suite Exam and PortSwigger Labs Guide - [link](https://github.com/DingyShark/BurpSuiteCertifiedPractitioner)
        4. All of the information I have gathered during the BSCP - [link](https://github.com/jacobocasado/bscp)"#;
        let expected_links = [
        ("BSCP Methodology", "https://bscpcheatsheet.gitbook.io/exam"),
        ("My experience (and tips) on the Burp Suite Certified Practitioner exam", "https://thelicato.medium.com/my-experience-and-tips-on-the-burp-suite-certified-practitioner-exam-1834e31465f8"),
        ("Ultimate Burp Suite Exam and PortSwigger Labs Guide", "https://github.com/DingyShark/BurpSuiteCertifiedPractitioner"),
        ("All of the information I have gathered during the BSCP", "https://github.com/jacobocasado/bscp")];
        let extracted_links = extract_titles_and_urls(CONTENT);
        assert_eq!(extracted_links, expected_links)
    }
    #[test]
    fn extracts_every_link_with_custom_title() {
        const CONTENT: &str = r#"# Not The Hidden Wiki

        💥 BSCP Notes
        -----
        
        1. [exam](https://bscpcheatsheet.gitbook.io/exam) [exam2](https://bscpcheatsheet.gitbook.io/exam2)"#;
        let expected_links = [
            ("exam", "https://bscpcheatsheet.gitbook.io/exam"),
            ("exam2", "https://bscpcheatsheet.gitbook.io/exam2"),
        ];
        let extracted_links = extract_titles_and_urls(CONTENT);
        assert_eq!(extracted_links, expected_links)
    }
